//! Wire interfaces: signatures, fingerprints and method numbers of services.
use crate::digest::{blake3_digest, hash_text};
use crate::order::{same_text, text_less_irreflexive, text_less_total, text_less_transitive};
use crate::search::{first_index, first_index_found, first_index_is_first};
use crate::text::{characters, group_views, join, join_texts, text_before, text_less, views};
use vstd::prelude::*;
use vstd::relations::{sorted_by, total_ordering};
use vstd::seq_lib::lemma_sorted_unique;
use vstd::utf8::encode_utf8;

verus! {

broadcast use group_views;

/// What the wire interface of a method consists of. Argument names are not part of it.
pub struct MethodModel {
    pub name: Seq<char>,
    pub arguments: Seq<Seq<char>>,
    pub ok: Seq<char>,
    pub error: Seq<char>,
}

/// A service method: its name and the spelling of its types.
#[derive(Clone, Debug, PartialEq, Eq)]
pub struct ServiceMethod {
    pub name: String,
    pub arguments: Vec<String>,
    pub ok: String,
    pub error: String,
}

impl View for ServiceMethod {
    type V = MethodModel;

    open spec fn view(&self) -> MethodModel {
        MethodModel {
            name: self.name@,
            arguments: views(self.arguments@),
            ok: self.ok@,
            error: self.error@,
        }
    }
}

/// The canonical signature of a method.
pub open spec fn signature(m: MethodModel) -> Seq<char> {
    m.name + "("@ + join(m.arguments, ","@) + ")->Result<"@ + m.ok + ","@ + m.error + ">"@
}

pub fn canonical_service_method(method: &ServiceMethod) -> (r: String)
    ensures
        r@ == signature(method@),
{
    let mut out = method.name.clone();
    out.append("(");
    out.append(join_texts(&method.arguments, ",").as_str());
    out.append(")->Result<");
    out.append(method.ok.as_str());
    out.append(",");
    out.append(method.error.as_str());
    out.append(">");
    out
}

/// A text does not sort after another one.
pub open spec fn not_after() -> spec_fn(Seq<char>, Seq<char>) -> bool {
    |a: Seq<char>, b: Seq<char>| !text_less(b, a)
}

pub proof fn not_after_is_an_order()
    ensures
        total_ordering(not_after()),
{
    let leq = not_after();
    assert forall|a: Seq<char>| #[trigger] leq(a, a) by {
        text_less_irreflexive(a);
    }
    assert forall|a: Seq<char>, b: Seq<char>| #[trigger] leq(a, b) && #[trigger] leq(b, a) implies a
        == b by {
        text_less_total(a, b);
    }
    assert forall|a: Seq<char>, b: Seq<char>, c: Seq<char>| #[trigger]
        leq(a, b) && #[trigger] leq(b, c) implies leq(a, c) by {
        text_less_total(a, b);
        text_less_total(b, c);
        text_less_irreflexive(a);
        if text_less(c, a) {
            if a == b {
            } else if b == c {
            } else {
                text_less_transitive(a, b, c);
                text_less_transitive(a, c, a);
            }
        }
    }
    assert forall|a: Seq<char>, b: Seq<char>| #[trigger] leq(a, b) || #[trigger] leq(b, a) by {
        if text_less(a, b) && text_less(b, a) {
            text_less_transitive(a, b, a);
            text_less_irreflexive(a);
        }
    }
}

/// A service name followed by the first `n` signatures, one per line.
pub open spec fn interface_lines(name: Seq<char>, signatures: Seq<Seq<char>>, n: nat) -> Seq<char>
    decreases n,
{
    if n == 0 {
        name
    } else {
        interface_lines(name, signatures, (n - 1) as nat).push('\n') + signatures[n - 1]
    }
}

/// The signatures of methods, as declared.
pub open spec fn signatures(methods: Seq<MethodModel>) -> Seq<Seq<char>> {
    Seq::new(methods.len(), |i: int| signature(methods[i]))
}

/// The canonical text of a service: its name and its signatures in text order.
pub open spec fn interface_text(name: Seq<char>, methods: Seq<MethodModel>) -> Seq<char> {
    interface_lines(name, signatures(methods).sort_by(not_after()), methods.len())
}

/// The fingerprint of a service interface.
pub open spec fn interface_hash(name: Seq<char>, methods: Seq<MethodModel>) -> Seq<u8> {
    blake3_digest(encode_utf8(interface_text(name, methods)))
}

/// Inserts a text in front of the first one that sorts after it.
fn insert_sorted(list: &mut Vec<String>, text: String)
    requires
        sorted_by(views(old(list)@), not_after()),
    ensures
        sorted_by(views(final(list)@), not_after()),
        views(final(list)@).to_multiset() == views(old(list)@).to_multiset().insert(text@),
        final(list)@.len() == old(list)@.len() + 1,
{
    let ghost before = views(list@);
    let ghost leq = not_after();
    let mut i: usize = 0;
    while i < list.len() && !text_before(text.as_str(), list[i].as_str())
        invariant
            before == views(list@),
            list@ == old(list)@,
            i <= list.len(),
            forall|k: int| 0 <= k < i ==> !text_less(text@, #[trigger] before[k]),
        decreases list.len() - i,
    {
        i = i + 1;
    }
    list.insert(i, text);
    proof {
        let after = views(list@);
        not_after_is_an_order();
        assert(after =~= before.insert(i as int, text@));
        assert forall|a: int, b: int| 0 <= a < b < after.len() implies #[trigger] leq(
            after[a],
            after[b],
        ) by {
            if b < i {
                assert(after[a] == before[a] && after[b] == before[b]);
                assert(leq(before[a], before[b]));
            } else if b == i {
                assert(after[a] == before[a]);
            } else if a == i {
                assert(after[b] == before[b - 1]);
                if i < b - 1 {
                    assert(leq(before[i as int], before[b - 1]));
                }
                assert(text_less(text@, before[i as int]));
                if text_less(before[b - 1], text@) {
                    text_less_transitive(before[b - 1], text@, before[i as int]);
                    if i == b - 1 {
                        text_less_irreflexive(before[b - 1]);
                    }
                }
            } else if a < i {
                assert(after[a] == before[a] && after[b] == before[b - 1]);
                if a < b - 1 {
                    assert(leq(before[a], before[b - 1]));
                }
            } else {
                assert(after[a] == before[a - 1] && after[b] == before[b - 1]);
                assert(leq(before[a - 1], before[b - 1]));
            }
        }
        vstd::seq_lib::to_multiset_insert(before, i as int, text@);
    }
}

/// The signatures of methods in text order.
fn sorted_signatures(methods: &Vec<ServiceMethod>) -> (r: Vec<String>)
    ensures
        views(r@) == signatures(views(methods@)).sort_by(not_after()),
        r@.len() == methods@.len(),
{
    let ghost all = signatures(views(methods@));
    let mut out: Vec<String> = Vec::new();
    let mut i: usize = 0;
    proof {
        assert(views(out@) =~= Seq::empty());
        assert(all.take(0) =~= Seq::empty());
    }
    while i < methods.len()
        invariant
            all == signatures(views(methods@)),
            i <= methods.len(),
            out@.len() == i,
            sorted_by(views(out@), not_after()),
            views(out@).to_multiset() == all.take(i as int).to_multiset(),
        decreases methods.len() - i,
    {
        proof {
            assert(all.take(i + 1) =~= all.take(i as int).push(all[i as int]));
            vstd::seq_lib::to_multiset_build(all.take(i as int), all[i as int]);
        }
        insert_sorted(&mut out, canonical_service_method(&methods[i]));
        i = i + 1;
    }
    proof {
        assert(all.take(i as int) =~= all);
        not_after_is_an_order();
        all.lemma_sort_by_ensures(not_after());
        lemma_sorted_unique(views(out@), all.sort_by(not_after()), not_after());
    }
    out
}

/// The fingerprint that keeps services of the same name but another interface apart.
pub fn service_abi_hash(name: &str, methods: &Vec<ServiceMethod>) -> (r: [u8; 32])
    ensures
        r@ == interface_hash(name@, views(methods@)),
{
    let lines = sorted_signatures(methods);
    let mut canonical = name.to_owned();
    let mut i: usize = 0;
    while i < lines.len()
        invariant
            i <= lines.len(),
            canonical@ == interface_lines(name@, views(lines@), i as nat),
        decreases lines.len() - i,
    {
        canonical.push('\n');
        canonical.append(lines[i].as_str());
        i = i + 1;
    }
    hash_text(canonical.as_str())
}

/// A name and a text on the next line.
pub open spec fn named_lines(name: Seq<char>, text: Seq<char>) -> Seq<char> {
    name.push('\n') + text
}

/// The fingerprint of an event declaration: its name and the tokens of its trait.
pub fn hash_tokens(name: &str, tokens: &str) -> (r: [u8; 32])
    ensures
        r@ == blake3_digest(encode_utf8(named_lines(name@, tokens@))),
{
    let mut out = name.to_owned();
    out.push('\n');
    out.append(tokens);
    hash_text(out.as_str())
}

/// The first four bytes of a fingerprint, least significant first.
pub open spec fn leading_number(hash: Seq<u8>) -> int {
    hash[0] + 0x100 * hash[1] + 0x1_0000 * hash[2] + 0x100_0000 * hash[3]
}

/// The number of a method within its service.
pub open spec fn method_number(service: Seq<char>, m: MethodModel) -> int {
    leading_number(blake3_digest(encode_utf8(named_lines(service, signature(m)))))
}

pub fn method_id(service: &str, method: &ServiceMethod) -> (r: u32)
    ensures
        r == method_number(service@, method@),
{
    let digest = hash_tokens(service, canonical_service_method(method).as_str());
    let a: u32 = digest[0] as u32;
    let b: u32 = digest[1] as u32;
    let c: u32 = digest[2] as u32;
    let d: u32 = digest[3] as u32;
    a + 0x100 * b + 0x1_0000 * c + 0x100_0000 * d
}

/// The fingerprint does not depend on the order in which methods are declared.
pub proof fn interface_hash_ignores_method_order(
    name: Seq<char>,
    a: Seq<MethodModel>,
    b: Seq<MethodModel>,
)
    requires
        signatures(a).to_multiset() == signatures(b).to_multiset(),
    ensures
        interface_hash(name, a) == interface_hash(name, b),
{
    let x = signatures(a);
    let y = signatures(b);
    not_after_is_an_order();
    x.lemma_sort_by_ensures(not_after());
    y.lemma_sort_by_ensures(not_after());
    lemma_sorted_unique(x.sort_by(not_after()), y.sort_by(not_after()), not_after());
    broadcast use vstd::seq_lib::group_to_multiset_ensures;

    assert(x.to_multiset().len() == x.len());
    assert(y.to_multiset().len() == y.len());
    assert(a.len() == b.len());
}

/// How a method takes its receiver.
#[derive(Clone, Copy, Debug, PartialEq, Eq, Structural)]
pub enum Receiver {
    Missing,
    Owned,
    Shared,
    Exclusive,
}

/// What the declaration rules look at in one argument.
#[derive(Clone, Copy, Debug, PartialEq, Eq, Structural)]
pub struct ArgumentShape {
    pub simple: bool,
    pub plain: bool,
    pub borrowed: bool,
}

/// A generic argument of a declared type: a type by its spelling, or something else.
#[derive(Clone, Debug, PartialEq, Eq)]
pub enum GenericShape {
    Type(String),
    Other,
}

/// What a method declares to return: nothing, a path by its last segment and that segment's
/// arguments in angle brackets, or some other type.
#[derive(Clone, Debug, PartialEq, Eq)]
pub enum OutputShape {
    Missing,
    Path { last: Option<String>, arguments: Option<Vec<GenericShape>> },
    Other,
}

/// The two types of a declared `Result`.
pub open spec fn result_types(output: OutputShape) -> Option<(Seq<char>, Seq<char>)> {
    match output {
        OutputShape::Path { last: Some(last), arguments: Some(arguments) } => if last@ == "Result"@
            && arguments@.len() == 2 && arguments@[0] is Type && arguments@[1] is Type {
            Some((arguments@[0]->Type_0@, arguments@[1]->Type_0@))
        } else {
            None
        },
        _ => None,
    }
}

/// The two types of a declared `Result`, which may be written with any path.
pub fn result_output(output: &OutputShape) -> (r: Result<(String, String), MethodFault>)
    ensures
        match (r, result_types(*output)) {
            (Ok((ok, error)), Some(types)) => ok@ == types.0 && error@ == types.1,
            (Err(fault), None) => fault is NotResult,
            _ => false,
        },
{
    match output {
        OutputShape::Path { last: Some(last), arguments: Some(arguments) } => {
            if !same_text(last.as_str(), "Result") || arguments.len() != 2 {
                return Err(MethodFault::NotResult);
            }
            match (&arguments[0], &arguments[1]) {
                (GenericShape::Type(ok), GenericShape::Type(error)) => Ok(
                    (ok.clone(), error.clone()),
                ),
                _ => Err(MethodFault::NotResult),
            }
        },
        _ => Err(MethodFault::NotResult),
    }
}

/// What the declaration rules look at in a service method.
#[derive(Clone, Debug, PartialEq, Eq)]
pub struct MethodShape {
    pub is_async: bool,
    pub has_default: bool,
    pub is_generic: bool,
    pub receiver: Receiver,
    pub arguments: Vec<ArgumentShape>,
    pub output: OutputShape,
}

/// Which declaration rule a service method breaks.
#[derive(Clone, Copy, Debug, PartialEq, Eq, Structural)]
pub enum MethodFault {
    NotAsync,
    DefaultBody,
    Generic,
    WrongReceiver,
    ComplexArgument,
    MutableArgument,
    BorrowedArgument,
    NotResult,
}

/// The rule an argument breaks.
pub open spec fn argument_fault(a: ArgumentShape) -> Option<MethodFault> {
    if !a.simple {
        Some(MethodFault::ComplexArgument)
    } else if !a.plain {
        Some(MethodFault::MutableArgument)
    } else if a.borrowed {
        Some(MethodFault::BorrowedArgument)
    } else {
        None
    }
}

/// An argument that breaks a rule.
pub open spec fn faulty(arguments: Seq<ArgumentShape>) -> spec_fn(int) -> bool {
    |i: int| argument_fault(arguments[i]) is Some
}

/// The first rule a service method breaks.
pub open spec fn method_fault(m: MethodShape) -> Option<MethodFault> {
    if !m.is_async {
        Some(MethodFault::NotAsync)
    } else if m.has_default {
        Some(MethodFault::DefaultBody)
    } else if m.is_generic {
        Some(MethodFault::Generic)
    } else if !(m.receiver is Shared) {
        Some(MethodFault::WrongReceiver)
    } else {
        match first_index(m.arguments@.len(), faulty(m.arguments@)) {
            Some(i) => argument_fault(m.arguments@[i]),
            None => if result_types(m.output) is Some {
                None
            } else {
                Some(MethodFault::NotResult)
            },
        }
    }
}

/// Checks a service method against the declaration rules.
pub fn check_service_method(shape: &MethodShape) -> (r: Result<(), MethodFault>)
    ensures
        match (r, method_fault(*shape)) {
            (Ok(_), None) => true,
            (Err(fault), Some(expected)) => fault == expected,
            _ => false,
        },
{
    if !shape.is_async {
        return Err(MethodFault::NotAsync);
    }
    if shape.has_default {
        return Err(MethodFault::DefaultBody);
    }
    if shape.is_generic {
        return Err(MethodFault::Generic);
    }
    if shape.receiver != Receiver::Shared {
        return Err(MethodFault::WrongReceiver);
    }
    let ghost p = faulty(shape.arguments@);
    let mut i: usize = 0;
    while i < shape.arguments.len()
        invariant
            p == faulty(shape.arguments@),
            i <= shape.arguments.len(),
            forall|k: int| 0 <= k < i ==> !#[trigger] p(k),
            shape.is_async && !shape.has_default && !shape.is_generic && shape.receiver is Shared,
        decreases shape.arguments.len() - i,
    {
        let a = shape.arguments[i];
        if !a.simple || !a.plain || a.borrowed {
            proof {
                assert(p(i as int));
                first_index_found(shape.arguments@.len(), p, i as int);
            }
            if !a.simple {
                return Err(MethodFault::ComplexArgument);
            }
            if !a.plain {
                return Err(MethodFault::MutableArgument);
            }
            return Err(MethodFault::BorrowedArgument);
        }
        proof {
            assert(!p(i as int));
        }
        i = i + 1;
    }
    proof {
        first_index_is_first(shape.arguments@.len(), p);
    }
    match result_output(&shape.output) {
        Ok(_) => Ok(()),
        Err(fault) => Err(fault),
    }
}

/// The text shown for a broken rule.
pub open spec fn fault_text(fault: MethodFault) -> Seq<char> {
    match fault {
        MethodFault::NotAsync => "service methods must be async"@,
        MethodFault::DefaultBody => "service methods cannot have a default implementation"@,
        MethodFault::Generic => "service methods cannot be generic"@,
        MethodFault::WrongReceiver => "service methods must take `&self`"@,
        MethodFault::ComplexArgument => "service argument must use a simple identifier"@,
        MethodFault::MutableArgument => "service argument must use an immutable owned identifier"@,
        MethodFault::BorrowedArgument =>
            "service arguments must be owned so native and Wasm dispatch use the same ABI"@,
        MethodFault::NotResult => "service method must return `Result<T, E>`"@,
    }
}

impl MethodFault {
    pub fn message(self) -> (r: &'static str)
        ensures
            r@ == fault_text(self),
    {
        match self {
            MethodFault::NotAsync => "service methods must be async",
            MethodFault::DefaultBody => "service methods cannot have a default implementation",
            MethodFault::Generic => "service methods cannot be generic",
            MethodFault::WrongReceiver => "service methods must take `&self`",
            MethodFault::ComplexArgument => "service argument must use a simple identifier",
            MethodFault::MutableArgument => {
                "service argument must use an immutable owned identifier"
            },
            MethodFault::BorrowedArgument => {
                "service arguments must be owned so native and Wasm dispatch use the same ABI"
            },
            MethodFault::NotResult => "service method must return `Result<T, E>`",
        }
    }
}

/// Whether a character is lower case.
pub uninterp spec fn lower_case(c: char) -> bool;

/// Whether a character is upper case.
pub uninterp spec fn upper_case(c: char) -> bool;

/// The lower-case spelling of a character.
pub uninterp spec fn lowered(c: char) -> Seq<char>;

/// `char::is_lowercase` is a function of the character alone.
#[verifier::external_body]
fn is_lower(c: char) -> (r: bool)
    ensures
        r == lower_case(c),
{
    c.is_lowercase()
}

/// `char::is_uppercase` is a function of the character alone.
#[verifier::external_body]
fn is_upper(c: char) -> (r: bool)
    ensures
        r == upper_case(c),
{
    c.is_uppercase()
}

/// `char::to_lowercase` yields the characters of the lower-case spelling, a function of the
/// character alone.
#[verifier::external_body]
fn to_lower(c: char) -> (r: Vec<char>)
    ensures
        r@ == lowered(c),
{
    c.to_lowercase().collect()
}

/// An ASCII digit.
pub open spec fn ascii_digit(c: char) -> bool {
    '0' <= c <= '9'
}

/// A new word starts at `i`: an upper-case character after a lower-case one or a digit, or in
/// front of a lower-case one.
pub open spec fn word_starts(name: Seq<char>, i: int) -> bool {
    &&& i > 0
    &&& upper_case(name[i])
    &&& lower_case(name[i - 1]) || ascii_digit(name[i - 1]) || i + 1 < name.len() && lower_case(
        name[i + 1],
    )
}

/// The first `n` characters in snake case.
pub open spec fn snake_case(name: Seq<char>, n: nat) -> Seq<char>
    decreases n,
{
    if n == 0 {
        Seq::empty()
    } else {
        let before = snake_case(name, (n - 1) as nat);
        let separated = if word_starts(name, n - 1) {
            before.push('_')
        } else {
            before
        };
        separated + lowered(name[n - 1])
    }
}

/// The field name of an injected service.
pub fn to_snake_case(value: &str) -> (r: String)
    ensures
        r@ == snake_case(value@, value@.len()),
{
    let letters = characters(value);
    let mut out = String::new();
    let mut i: usize = 0;
    while i < letters.len()
        invariant
            letters@ == value@,
            i <= letters.len(),
            out@ == snake_case(value@, i as nat),
        decreases letters.len() - i,
    {
        let c = letters[i];
        let follows = i > 0 && (is_lower(letters[i - 1]) || ('0' <= letters[i - 1] && letters[i - 1]
            <= '9'));
        let leads = i + 1 < letters.len() && is_lower(letters[i + 1]);
        if is_upper(c) && i > 0 && (follows || leads) {
            out.push('_');
        }
        let ghost start = out@;
        let small = to_lower(c);
        let mut k: usize = 0;
        while k < small.len()
            invariant
                k <= small.len(),
                out@ == start + small@.take(k as int),
            decreases small.len() - k,
        {
            out.push(small[k]);
            proof {
                assert(small@.take(k + 1) =~= small@.take(k as int).push(small@[k as int]));
                assert(out@ =~= start + small@.take(k + 1));
            }
            k = k + 1;
        }
        proof {
            assert(small@.take(k as int) =~= small@);
        }
        i = i + 1;
    }
    out
}

/// What the declaration rules look at in a component method.
#[derive(Clone, Copy, Debug, PartialEq, Eq, Structural)]
pub struct ComponentMethodShape {
    pub applies: bool,
    pub injects: bool,
    pub is_async: bool,
    pub receiver: Receiver,
    pub inputs: usize,
}

/// Which declaration rule a component breaks.
#[derive(Clone, Copy, Debug, PartialEq, Eq, Structural)]
pub enum ComponentFault {
    NotInherent,
    SecondApply,
    ApplyAndInject,
    ApplyNotAsync,
    ApplyWithoutSelf,
    ApplySignature,
    InjectNotAsync,
    MissingApply,
}

impl ComponentFault {
    /// The text shown for a broken rule.
    pub fn message(self) -> (r: &'static str)
        ensures
            r@ == match self {
                ComponentFault::NotInherent => "component_impl must be used on an inherent impl"@,
                ComponentFault::SecondApply =>
                    "component_impl requires exactly one #[cordis::apply] method"@,
                ComponentFault::ApplyAndInject =>
                    "#[cordis::apply] method cannot also be #[cordis::inject]"@,
                ComponentFault::ApplyNotAsync => "#[cordis::apply] method must be async"@,
                ComponentFault::ApplyWithoutSelf => "#[cordis::apply] method must take self"@,
                ComponentFault::ApplySignature =>
                    "#[cordis::apply] signature must be `async fn name(&mut self, context, config) -> Result<(), CordisError>`"@,
                ComponentFault::InjectNotAsync => "#[cordis::inject] method must be async"@,
                ComponentFault::MissingApply =>
                    "component_impl requires one #[cordis::apply] method"@,
            },
    {
        match self {
            ComponentFault::NotInherent => "component_impl must be used on an inherent impl",
            ComponentFault::SecondApply => {
                "component_impl requires exactly one #[cordis::apply] method"
            },
            ComponentFault::ApplyAndInject => {
                "#[cordis::apply] method cannot also be #[cordis::inject]"
            },
            ComponentFault::ApplyNotAsync => "#[cordis::apply] method must be async",
            ComponentFault::ApplyWithoutSelf => "#[cordis::apply] method must take self",
            ComponentFault::ApplySignature => {
                "#[cordis::apply] signature must be `async fn name(&mut self, context, config) -> Result<(), CordisError>`"
            },
            ComponentFault::InjectNotAsync => "#[cordis::inject] method must be async",
            ComponentFault::MissingApply => {
                "component_impl requires one #[cordis::apply] method"
            },
        }
    }
}

/// The rule one method breaks. A component is applied through `&mut self`, a context and a
/// configuration.
pub open spec fn component_method_fault(m: ComponentMethodShape, applied: bool) -> Option<
    ComponentFault,
> {
    if m.applies {
        if applied {
            Some(ComponentFault::SecondApply)
        } else if m.injects {
            Some(ComponentFault::ApplyAndInject)
        } else if !m.is_async {
            Some(ComponentFault::ApplyNotAsync)
        } else if m.receiver is Missing {
            Some(ComponentFault::ApplyWithoutSelf)
        } else if !(m.receiver is Exclusive) || m.inputs != 3 {
            Some(ComponentFault::ApplySignature)
        } else {
            None
        }
    } else if m.injects && !m.is_async {
        Some(ComponentFault::InjectNotAsync)
    } else {
        None
    }
}

/// Some method among the first `n` applies the component.
pub open spec fn applied_before(methods: Seq<ComponentMethodShape>, n: int) -> bool {
    exists|i: int| 0 <= i < n && (#[trigger] methods[i]).applies
}

/// A method that breaks a rule.
pub open spec fn component_faulty(methods: Seq<ComponentMethodShape>) -> spec_fn(int) -> bool {
    |i: int| component_method_fault(methods[i], applied_before(methods, i)) is Some
}

/// The first rule a component breaks. Its methods stand in an impl of their own, not in that of
/// a trait.
pub open spec fn component_fault(of_trait: bool, methods: Seq<ComponentMethodShape>) -> Option<
    ComponentFault,
> {
    if of_trait {
        Some(ComponentFault::NotInherent)
    } else {
        methods_fault(methods)
    }
}

/// The first rule the methods of a component break.
pub open spec fn methods_fault(methods: Seq<ComponentMethodShape>) -> Option<ComponentFault> {
    match first_index(methods.len(), component_faulty(methods)) {
        Some(i) => component_method_fault(methods[i], applied_before(methods, i)),
        None => if applied_before(methods, methods.len() as int) {
            None
        } else {
            Some(ComponentFault::MissingApply)
        },
    }
}

/// Checks the methods of a component and returns the one that applies it.
pub fn check_component(of_trait: bool, methods: &Vec<ComponentMethodShape>) -> (r: Result<
    usize,
    ComponentFault,
>)
    ensures
        match (r, component_fault(of_trait, methods@)) {
            (Ok(at), None) => at < methods@.len() && methods@[at as int].applies,
            (Err(fault), Some(expected)) => fault == expected,
            _ => false,
        },
{
    if of_trait {
        return Err(ComponentFault::NotInherent);
    }
    let ghost p = component_faulty(methods@);
    let mut applied: Option<usize> = None;
    let mut i: usize = 0;
    while i < methods.len()
        invariant
            !of_trait,
            p == component_faulty(methods@),
            i <= methods.len(),
            forall|k: int| 0 <= k < i ==> !#[trigger] p(k),
            applied is Some <==> applied_before(methods@, i as int),
            applied matches Some(at) ==> at < i && methods@[at as int].applies,
        decreases methods.len() - i,
    {
        let m = methods[i];
        let fault = if m.applies {
            if applied.is_some() {
                Some(ComponentFault::SecondApply)
            } else if m.injects {
                Some(ComponentFault::ApplyAndInject)
            } else if !m.is_async {
                Some(ComponentFault::ApplyNotAsync)
            } else if m.receiver == Receiver::Missing {
                Some(ComponentFault::ApplyWithoutSelf)
            } else if m.receiver != Receiver::Exclusive || m.inputs != 3 {
                Some(ComponentFault::ApplySignature)
            } else {
                None
            }
        } else if m.injects && !m.is_async {
            Some(ComponentFault::InjectNotAsync)
        } else {
            None
        };
        if let Some(found) = fault {
            proof {
                assert(p(i as int));
                first_index_found(methods@.len(), p, i as int);
            }
            return Err(found);
        }
        proof {
            assert(!p(i as int));
        }
        if m.applies {
            applied = Some(i);
        }
        proof {
            if applied_before(methods@, i as int) {
                let k = choose|k: int| 0 <= k < i && (#[trigger] methods@[k]).applies;
                assert(methods@[k].applies);
            }
            if m.applies {
                assert(methods@[i as int].applies);
            }
        }
        i = i + 1;
    }
    proof {
        first_index_is_first(methods@.len(), p);
    }
    match applied {
        Some(at) => Ok(at),
        None => Err(ComponentFault::MissingApply),
    }
}

} // verus!
