//! Capabilities and the WASI access granted to a guest.
use crate::text::{characters, views};
use crate::wasm_error::{WasmErrorModel, WasmHostError};
use vstd::prelude::*;

verus! {

/// A capability requested by a component manifest.
#[derive(Clone, Debug, PartialEq, Eq, PartialOrd, Ord, Hash)]
pub struct Capability {
    pub value: String,
}

impl Capability {
    pub fn new(value: String) -> (r: Capability)
        ensures
            r.value@ == value@,
    {
        Capability { value }
    }

    pub fn as_str(&self) -> (r: &str)
        ensures
            r@ == self.value@,
    {
        self.value.as_str()
    }
}

/// Filesystem access explicitly granted to one guest.
#[derive(Clone, Debug, PartialEq, Eq)]
pub struct WasiPreopen {
    pub host_path: String,
    pub guest_path: String,
    pub writable: bool,
}

/// The content of a grant.
pub struct PreopenModel {
    pub host_path: Seq<char>,
    pub guest_path: Seq<char>,
    pub writable: bool,
}

impl View for WasiPreopen {
    type V = PreopenModel;

    open spec fn view(&self) -> PreopenModel {
        PreopenModel {
            host_path: self.host_path@,
            guest_path: self.guest_path@,
            writable: self.writable,
        }
    }
}

impl WasiPreopen {
    pub fn read_only(host_path: String, guest_path: String) -> (r: WasiPreopen)
        ensures
            r@ == (PreopenModel {
                host_path: host_path@,
                guest_path: guest_path@,
                writable: false,
            }),
    {
        WasiPreopen { host_path, guest_path, writable: false }
    }

    pub fn read_write(host_path: String, guest_path: String) -> (r: WasiPreopen)
        ensures
            r@ == (PreopenModel { host_path: host_path@, guest_path: guest_path@, writable: true }),
    {
        WasiPreopen { host_path, guest_path, writable: true }
    }
}

/// WASI policy. Without grants there is no ambient filesystem or network access.
#[derive(Clone, Debug, PartialEq, Eq)]
pub struct WasiCapabilities {
    pub preopens: Vec<WasiPreopen>,
}

impl View for WasiCapabilities {
    type V = Seq<PreopenModel>;

    open spec fn view(&self) -> Seq<PreopenModel> {
        views(self.preopens@)
    }
}

impl WasiCapabilities {
    /// Grants nothing.
    pub fn deny_all() -> (r: WasiCapabilities)
        ensures
            r@ == Seq::<PreopenModel>::empty(),
    {
        let r = WasiCapabilities { preopens: Vec::new() };
        proof {
            assert(r@ =~= Seq::<PreopenModel>::empty());
        }
        r
    }

    #[must_use]
    pub fn with_preopen(self, preopen: WasiPreopen) -> (r: WasiCapabilities)
        ensures
            r@ == self@.push(preopen@),
    {
        let ghost before = self@;
        let ghost grant = preopen@;
        let mut preopens = self.preopens;
        preopens.push(preopen);
        let r = WasiCapabilities { preopens };
        proof {
            assert(r@ =~= before.push(grant));
        }
        r
    }

    pub fn preopens(&self) -> (r: &Vec<WasiPreopen>)
        ensures
            views(r@) == self@,
    {
        &self.preopens
    }
}

/// A path segment at `i` is `..`.
pub open spec fn parent_segment(path: Seq<char>, i: int) -> bool {
    &&& 0 <= i
    &&& i + 2 <= path.len()
    &&& path[i] == '.'
    &&& path[i + 1] == '.'
    &&& i == 0 || path[i - 1] == '/'
    &&& i + 2 == path.len() || path[i + 2] == '/'
}

/// A guest path stays below its grant: it is relative and never goes up.
pub open spec fn contained(path: Seq<char>) -> bool {
    &&& !(path.len() > 0 && path[0] == '/')
    &&& forall|i: int| !#[trigger] parent_segment(path, i)
}

/// Refuses guest paths that could leave their grant.
pub fn validate_guest_path(path: &str) -> (r: Result<(), WasmHostError>)
    ensures
        match r {
            Ok(_) => contained(path@),
            Err(error) => !contained(path@) && error@ == (WasmErrorModel::Capability {
                message: "guest preopen path must be relative and cannot contain `..`: "@ + path@,
            }),
        },
{
    let letters = characters(path);
    let mut bad = letters.len() > 0 && letters[0] == '/';
    let mut i: usize = 0;
    while i < letters.len() && !bad
        invariant
            letters@ == path@,
            i <= letters.len(),
            !bad ==> !(path@.len() > 0 && path@[0] == '/') && forall|k: int|
                0 <= k < i ==> !#[trigger] parent_segment(path@, k),
            bad ==> !contained(path@),
        decreases letters.len() - i,
    {
        let ends = i + 1 < letters.len() && (i + 2 >= letters.len() || letters[i + 2] == '/');
        let starts = i == 0 || letters[i - 1] == '/';
        if ends && starts && letters[i] == '.' && letters[i + 1] == '.' {
            bad = true;
            proof {
                assert(parent_segment(path@, i as int));
            }
        } else {
            proof {
                assert(!parent_segment(path@, i as int));
            }
        }
        i = i + 1;
    }
    if bad {
        let mut message = "guest preopen path must be relative and cannot contain `..`: ".to_owned();
        message.append(path);
        return Err(WasmHostError::Capability { message });
    }
    Ok(())
}

} // verus!
