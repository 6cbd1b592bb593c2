//! Sorting of script values by a total order, so that no value can upset it.
use crate::order::{same_text, text_less_irreflexive, text_less_total, text_less_transitive};
use crate::text::{group_views, text_before, text_less, views};
use vstd::prelude::*;

verus! {

broadcast use group_views;

/// What a script value is sorted by. A floating-point number counts by its bits, and a value that
/// has no order by the name of its type.
#[derive(Debug)]
pub enum SortKey {
    Unit,
    Int(i64),
    Char(char),
    Text(String),
    Bool(bool),
    Float(u64),
    Other(String),
}

/// The content of a key.
pub enum KeyModel {
    Unit,
    Int(i64),
    Char(char),
    Text(Seq<char>),
    Bool(bool),
    Float(u64),
    Other(Seq<char>),
}

impl View for SortKey {
    type V = KeyModel;

    open spec fn view(&self) -> KeyModel {
        match self {
            SortKey::Unit => KeyModel::Unit,
            SortKey::Int(n) => KeyModel::Int(*n),
            SortKey::Char(c) => KeyModel::Char(*c),
            SortKey::Text(text) => KeyModel::Text(text@),
            SortKey::Bool(flag) => KeyModel::Bool(*flag),
            SortKey::Float(bits) => KeyModel::Float(*bits),
            SortKey::Other(name) => KeyModel::Other(name@),
        }
    }
}

/// A floating-point number by its bits: its rank among all such numbers. The two zeros are equal,
/// and what is no number comes last.
pub open spec fn float_rank(bits: u64) -> int {
    let negative = bits >= 0x8000_0000_0000_0000;
    let magnitude = if negative {
        bits - 0x8000_0000_0000_0000
    } else {
        bits as int
    };
    if magnitude > 0x7ff0_0000_0000_0000 {
        0x7ff0_0000_0000_0001
    } else if negative {
        -magnitude
    } else {
        magnitude
    }
}

/// The keys are of one kind.
pub open spec fn same_kind(a: KeyModel, b: KeyModel) -> bool {
    match (a, b) {
        (KeyModel::Unit, KeyModel::Unit) => true,
        (KeyModel::Int(_), KeyModel::Int(_)) => true,
        (KeyModel::Char(_), KeyModel::Char(_)) => true,
        (KeyModel::Text(_), KeyModel::Text(_)) => true,
        (KeyModel::Bool(_), KeyModel::Bool(_)) => true,
        (KeyModel::Float(_), KeyModel::Float(_)) => true,
        (KeyModel::Other(a), KeyModel::Other(b)) => a == b,
        _ => false,
    }
}

/// One key sorts before another of its kind.
pub open spec fn key_less(a: KeyModel, b: KeyModel) -> bool {
    match (a, b) {
        (KeyModel::Int(a), KeyModel::Int(b)) => a < b,
        (KeyModel::Char(a), KeyModel::Char(b)) => a < b,
        (KeyModel::Text(a), KeyModel::Text(b)) => text_less(a, b),
        (KeyModel::Bool(a), KeyModel::Bool(b)) => !a && b,
        (KeyModel::Float(a), KeyModel::Float(b)) => float_rank(a) < float_rank(b),
        _ => false,
    }
}

/// One key comes before another in ascending or descending order.
pub open spec fn comes_before(a: KeyModel, b: KeyModel, descending: bool) -> bool {
    if descending {
        key_less(b, a)
    } else {
        key_less(a, b)
    }
}

/// Where a key belongs among the first `n` of sorted ones: behind all it does not come before.
pub open spec fn place(sorted: Seq<KeyModel>, key: KeyModel, descending: bool, n: nat) -> nat
    decreases n,
{
    if n == 0 || !comes_before(key, sorted[n - 1], descending) {
        n
    } else {
        place(sorted, key, descending, (n - 1) as nat)
    }
}

/// The keys at some positions.
pub open spec fn keys_at(keys: Seq<KeyModel>, order: Seq<int>) -> Seq<KeyModel> {
    Seq::new(order.len(), |i: int| keys[order[i]])
}

/// The positions of the first `n` keys in order. Of two equal keys the first stays first.
pub open spec fn sort_order(keys: Seq<KeyModel>, descending: bool, n: nat) -> Seq<int>
    decreases n,
{
    if n == 0 {
        Seq::empty()
    } else {
        let before = sort_order(keys, descending, (n - 1) as nat);
        before.insert(
            place(keys_at(keys, before), keys[n - 1], descending, before.len()) as int,
            n - 1,
        )
    }
}

/// Why values with these keys cannot be sorted.
pub open spec fn sort_fault(keys: Seq<KeyModel>) -> Option<Seq<char>> {
    if keys.len() <= 1 {
        None
    } else if exists|i: int| 0 <= i < keys.len() && !same_kind(#[trigger] keys[i], keys[0]) {
        Some("elements of different types cannot be sorted"@)
    } else {
        match keys[0] {
            KeyModel::Other(name) => Some("elements of "@ + name + " cannot be sorted"@),
            _ => None,
        }
    }
}

fn rank(bits: u64) -> (r: i64)
    ensures
        r == float_rank(bits),
{
    let negative = bits >= 0x8000_0000_0000_0000;
    let magnitude: u64 = if negative {
        bits - 0x8000_0000_0000_0000
    } else {
        bits
    };
    if magnitude > 0x7ff0_0000_0000_0000 {
        0x7ff0_0000_0000_0001
    } else if negative {
        -(magnitude as i64)
    } else {
        magnitude as i64
    }
}

impl SortKey {
    fn before(&self, other: &SortKey, descending: bool) -> (r: bool)
        ensures
            r == comes_before(self@, other@, descending),
    {
        if descending {
            other.less(self)
        } else {
            self.less(other)
        }
    }

    fn less(&self, other: &SortKey) -> (r: bool)
        ensures
            r == key_less(self@, other@),
    {
        match (self, other) {
            (SortKey::Int(a), SortKey::Int(b)) => *a < *b,
            (SortKey::Char(a), SortKey::Char(b)) => *a < *b,
            (SortKey::Text(a), SortKey::Text(b)) => text_before(a.as_str(), b.as_str()),
            (SortKey::Bool(a), SortKey::Bool(b)) => !*a && *b,
            (SortKey::Float(a), SortKey::Float(b)) => rank(*a) < rank(*b),
            _ => false,
        }
    }

    fn same_kind(&self, other: &SortKey) -> (r: bool)
        ensures
            r == same_kind(self@, other@),
    {
        match (self, other) {
            (SortKey::Unit, SortKey::Unit) => true,
            (SortKey::Int(_), SortKey::Int(_)) => true,
            (SortKey::Char(_), SortKey::Char(_)) => true,
            (SortKey::Text(_), SortKey::Text(_)) => true,
            (SortKey::Bool(_), SortKey::Bool(_)) => true,
            (SortKey::Float(_), SortKey::Float(_)) => true,
            (SortKey::Other(a), SortKey::Other(b)) => same_text(a.as_str(), b.as_str()),
            _ => false,
        }
    }
}

fn check_keys(keys: &Vec<SortKey>) -> (r: Result<(), String>)
    ensures
        match (r, sort_fault(views(keys@))) {
            (Ok(_), None) => true,
            (Err(message), Some(expected)) => message@ == expected,
            _ => false,
        },
{
    let ghost models = views(keys@);
    if keys.len() <= 1 {
        return Ok(());
    }
    let mut i: usize = 0;
    while i < keys.len()
        invariant
            models == views(keys@),
            1 < keys.len(),
            i <= keys.len(),
            forall|k: int| 0 <= k < i ==> same_kind(#[trigger] models[k], models[0]),
        decreases keys.len() - i,
    {
        proof {
            assert(models[i as int] == keys@[i as int]@);
            assert(models[0] == keys@[0]@);
        }
        if !keys[i].same_kind(&keys[0]) {
            return Err("elements of different types cannot be sorted".to_owned());
        }
        i = i + 1;
    }
    proof {
        assert(models[0] == keys@[0]@);
    }
    match &keys[0] {
        SortKey::Other(name) => {
            let mut message = "elements of ".to_owned();
            message.append(name.as_str());
            message.append(" cannot be sorted");
            Err(message)
        },
        _ => Ok(()),
    }
}

/// The items at some positions.
pub open spec fn items_at<T>(items: Seq<T>, order: Seq<int>) -> Seq<T> {
    Seq::new(order.len(), |i: int| items[order[i]])
}

proof fn order_bounds(keys: Seq<KeyModel>, descending: bool, n: nat)
    ensures
        sort_order(keys, descending, n).len() == n,
        forall|i: int|
            0 <= i < n ==> 0 <= #[trigger] sort_order(keys, descending, n)[i] < n,
    decreases n,
{
    if n > 0 {
        order_bounds(keys, descending, (n - 1) as nat);
        let before = sort_order(keys, descending, (n - 1) as nat);
        let p = place(keys_at(keys, before), keys[n - 1], descending, before.len());
        place_bounds(keys_at(keys, before), keys[n - 1], descending, before.len());
        let after = sort_order(keys, descending, n);
        assert forall|i: int| 0 <= i < n implies 0 <= #[trigger] after[i] < n by {
            if i < p {
                assert(after[i] == before[i]);
            } else if i > p {
                assert(after[i] == before[i - 1]);
            }
        }
    }
}

proof fn place_bounds(sorted: Seq<KeyModel>, key: KeyModel, descending: bool, n: nat)
    ensures
        place(sorted, key, descending, n) <= n,
    decreases n,
{
    if n > 0 && comes_before(key, sorted[n - 1], descending) {
        place_bounds(sorted, key, descending, (n - 1) as nat);
    }
}

/// Sorts items by their keys, in a stable way.
pub fn sort_by_keys<T>(items: &mut Vec<T>, keys: Vec<SortKey>, descending: bool) -> (r: Result<
    (),
    String,
>)
    requires
        old(items)@.len() == keys@.len(),
    ensures
        match (r, sort_fault(views(keys@))) {
            (Ok(_), None) => final(items)@ == items_at(
                old(items)@,
                sort_order(views(keys@), descending, keys@.len()),
            ),
            (Err(message), Some(expected)) => message@ == expected && final(items)@
                == old(items)@,
            _ => false,
        },
{
    match check_keys(&keys) {
        Err(message) => return Err(message),
        Ok(_) => {},
    }
    let ghost models = views(keys@);
    let ghost start = items@;
    let n = keys.len();
    let mut keys = keys;
    let mut i: usize = 0;
    proof {
        assert(items@ =~= items_at(start, Seq::<int>::empty()) + start.skip(0));
        assert(views(keys@) =~= keys_at(models, Seq::<int>::empty()) + models.skip(0));
    }
    while i < n
        invariant
            n == models.len(),
            n == start.len(),
            i <= n,
            items@ == items_at(start, sort_order(models, descending, i as nat)) + start.skip(
                i as int,
            ),
            views(keys@) == keys_at(models, sort_order(models, descending, i as nat))
                + models.skip(i as int),
        decreases n - i,
    {
        let ghost before = sort_order(models, descending, i as nat);
        let ghost sorted = keys_at(models, before);
        let ghost keys_then = views(keys@);
        let ghost items_then = items@;
        proof {
            order_bounds(models, descending, i as nat);
            place_bounds(sorted, models[i as int], descending, i as nat);
            assert(keys_then.len() == keys@.len());
            assert(keys_then[i as int] == models[i as int]);
            assert(items_then[i as int] == start[i as int]);
        }
        let key = keys.remove(i);
        let item = items.remove(i);
        proof {
            assert(views(keys@) =~= keys_then.remove(i as int));
        }
        proof {
            assert forall|k: int| 0 <= k < i implies (#[trigger] keys@[k])@ == sorted[k] by {
                assert(views(keys@)[k] == keys_then[k]);
            }
        }
        let mut p: usize = i;
        while p > 0 && key.before(&keys[p - 1], descending)
            invariant
                i < n,
                p <= i,
                n == models.len(),
                before.len() == i,
                sorted == keys_at(models, before),
                key@ == models[i as int],
                keys@.len() == n - 1,
                forall|k: int| 0 <= k < i ==> (#[trigger] keys@[k])@ == sorted[k],
                place(sorted, key@, descending, i as nat) == place(
                    sorted,
                    key@,
                    descending,
                    p as nat,
                ),
            decreases p,
        {
            proof {
                assert(keys@[p - 1]@ == sorted[p - 1]);
            }
            p = p - 1;
        }
        proof {
            if p > 0 {
                assert(keys@[p - 1]@ == sorted[p - 1]);
            }
        }
        let ghost keys_mid = views(keys@);
        keys.insert(p, key);
        items.insert(p, item);
        proof {
            let after = sort_order(models, descending, (i + 1) as nat);
            assert(after == before.insert(p as int, i as int));
            assert(views(keys@) =~= keys_mid.insert(p as int, models[i as int]));
            assert(views(keys@) =~= keys_at(models, after) + models.skip(i + 1));
            assert(items@ =~= items_at(start, after) + start.skip(i + 1));
        }
        i = i + 1;
    }
    proof {
        order_bounds(models, descending, n as nat);
        assert(items@ =~= items_at(start, sort_order(models, descending, n as nat)));
    }
    Ok(())
}

proof fn order_is_weak(a: KeyModel, b: KeyModel, c: KeyModel, descending: bool)
    requires
        same_kind(a, b),
        same_kind(b, c),
        !comes_before(b, a, descending),
        !comes_before(c, b, descending),
    ensures
        !comes_before(c, a, descending),
{
    match (a, b, c) {
        (KeyModel::Text(x), KeyModel::Text(y), KeyModel::Text(z)) => {
            text_less_total(x, y);
            text_less_total(y, z);
            text_less_irreflexive(x);
            if text_less(x, y) && text_less(y, z) {
                text_less_transitive(x, y, z);
            }
            if text_less(z, y) && text_less(y, x) {
                text_less_transitive(z, y, x);
            }
            if text_less(x, z) && text_less(z, x) {
                text_less_transitive(x, z, x);
            }
        },
        _ => {},
    }
}

proof fn place_is_right(sorted: Seq<KeyModel>, key: KeyModel, descending: bool, n: nat)
    requires
        n <= sorted.len(),
    ensures
        ({
            let p = place(sorted, key, descending, n);
            &&& p <= n
            &&& p > 0 ==> !comes_before(key, sorted[p - 1], descending)
            &&& forall|i: int|
                p <= i < n ==> comes_before(key, #[trigger] sorted[i], descending)
        }),
    decreases n,
{
    if n > 0 && comes_before(key, sorted[n - 1], descending) {
        place_is_right(sorted, key, descending, (n - 1) as nat);
    }
}

/// Sorting values of one kind puts them in order and keeps each of them: no value comes before
/// an earlier one, and every position occurs once.
pub proof fn sorting_orders(keys: Seq<KeyModel>, descending: bool, n: nat)
    requires
        n <= keys.len(),
        forall|i: int, j: int|
            0 <= i < keys.len() && 0 <= j < keys.len() ==> same_kind(
                #[trigger] keys[i],
                #[trigger] keys[j],
            ),
    ensures
        ({
            let order = sort_order(keys, descending, n);
            &&& order.len() == n
            &&& order.no_duplicates()
            &&& forall|i: int| 0 <= i < n ==> 0 <= #[trigger] order[i] < n
            &&& forall|i: int, j: int|
                0 <= i < j < n ==> !comes_before(
                    keys[#[trigger] order[j]],
                    keys[#[trigger] order[i]],
                    descending,
                )
        }),
    decreases n,
{
    order_bounds(keys, descending, n);
    if n > 0 {
        let m = (n - 1) as nat;
        sorting_orders(keys, descending, m);
        let before = sort_order(keys, descending, m);
        let sorted = keys_at(keys, before);
        let key = keys[n - 1];
        let p = place(sorted, key, descending, m) as int;
        place_is_right(sorted, key, descending, m);
        let after = sort_order(keys, descending, n);
        assert(after == before.insert(p, n - 1));
        assert forall|i: int, j: int| 0 <= i < j < n implies !comes_before(
            keys[#[trigger] after[j]],
            keys[#[trigger] after[i]],
            descending,
        ) by {
            let x = if i < p {
                i
            } else {
                i - 1
            };
            let y = if j < p {
                j
            } else {
                j - 1
            };
            if i == p {
                // What comes behind the new one does not come before it.
                assert(after[j] == before[j - 1]);
                assert(comes_before(key, sorted[j - 1], descending));
                less_is_one_way(key, sorted[j - 1], descending);
            } else if j == p {
                assert(after[i] == before[i]);
                if p > 0 {
                    if i < p - 1 {
                        assert(!comes_before(keys[before[p - 1]], keys[before[i]], descending));
                        order_is_weak(sorted[i], sorted[p - 1], key, descending);
                    }
                }
            } else {
                assert(after[i] == before[x] && after[j] == before[y]);
                assert(!comes_before(keys[before[y]], keys[before[x]], descending));
            }
        }
        assert forall|i: int, j: int| 0 <= i < j < n implies after[i] != after[j] by {
            if i < p {
                assert(after[i] == before[i]);
            } else if i > p {
                assert(after[i] == before[i - 1]);
            }
            if j < p {
                assert(after[j] == before[j]);
            } else if j > p {
                assert(after[j] == before[j - 1]);
            }
        }
    }
}

proof fn less_is_one_way(a: KeyModel, b: KeyModel, descending: bool)
    requires
        comes_before(a, b, descending),
    ensures
        !comes_before(b, a, descending),
{
    match (a, b) {
        (KeyModel::Text(x), KeyModel::Text(y)) => {
            text_less_irreflexive(x);
            if text_less(x, y) && text_less(y, x) {
                text_less_transitive(x, y, x);
            }
        },
        _ => {},
    }
}

// ---------------------------------------------------------------------------------------------
// Arrays of scripts
// ---------------------------------------------------------------------------------------------

/// A value of a script.
#[verifier::external_type_specification]
#[verifier::external_body]
pub struct ScriptValue(rhai::Dynamic);

/// An error of a script.
#[verifier::external_type_specification]
#[verifier::external_body]
pub struct ScriptError(rhai::EvalAltResult);

/// What a value of a script is sorted by.
pub uninterp spec fn script_key(value: rhai::Dynamic) -> KeyModel;

/// What the values of an array are sorted by.
pub open spec fn script_keys(values: Seq<rhai::Dynamic>) -> Seq<KeyModel> {
    Seq::new(values.len(), |i: int| script_key(values[i]))
}

/// Tells a `rhai::Dynamic` apart by what it holds, with `is_unit`, `as_int`, `as_char`, `as_bool`,
/// `as_float` and `as_immutable_string_ref`; the last of them gives the name of any other type.
#[verifier::external_body]
fn key_of(value: &rhai::Dynamic) -> (r: SortKey)
    ensures
        r@ == script_key(*value),
{
    if value.is_unit() {
        return SortKey::Unit;
    }
    let integer = value.as_int().map(SortKey::Int);
    integer
        .or_else(|_| value.as_char().map(SortKey::Char))
        .or_else(|_| value.as_bool().map(SortKey::Bool))
        .or_else(|_| value.as_float().map(|number| SortKey::Float(number.to_bits())))
        .or_else(|_| value.as_immutable_string_ref().map(|text| SortKey::Text(text.to_string())))
        .unwrap_or_else(|name| SortKey::Other(name.to_owned()))
}

/// What a script error says of values that cannot be sorted.
pub uninterp spec fn sort_refusal(error: rhai::EvalAltResult) -> Seq<char>;

/// `rhai::EvalAltResult::ErrorFunctionNotFound` with a message.
#[verifier::external_body]
fn refuse_sorting(message: String) -> (r: Box<rhai::EvalAltResult>)
    ensures
        sort_refusal(*r) == message@,
{
    Box::new(rhai::EvalAltResult::ErrorFunctionNotFound(message, rhai::Position::NONE))
}

/// An array was sorted, or left alone with the reason.
pub open spec fn array_sorted(
    before: Seq<rhai::Dynamic>,
    after: Seq<rhai::Dynamic>,
    descending: bool,
    r: Result<(), Box<rhai::EvalAltResult>>,
) -> bool {
    let keys = script_keys(before);
    match (r, sort_fault(keys)) {
        (Ok(_), None) => after == items_at(before, sort_order(keys, descending, keys.len())),
        (Err(error), Some(expected)) => sort_refusal(*error) == expected && after == before,
        _ => false,
    }
}

fn sort_array(values: &mut Vec<rhai::Dynamic>, descending: bool) -> (r: Result<
    (),
    Box<rhai::EvalAltResult>,
>)
    ensures
        array_sorted(old(values)@, final(values)@, descending, r),
{
    let mut keys: Vec<SortKey> = Vec::new();
    let mut i: usize = 0;
    while i < values.len()
        invariant
            values@ == old(values)@,
            i <= values.len(),
            keys@.len() == i,
            forall|k: int| 0 <= k < i ==> (#[trigger] keys@[k])@ == script_key(values@[k]),
        decreases values.len() - i,
    {
        keys.push(key_of(&values[i]));
        i = i + 1;
    }
    proof {
        assert(views(keys@) =~= script_keys(values@));
    }
    match sort_by_keys(values, keys, descending) {
        Ok(_) => Ok(()),
        Err(message) => Err(refuse_sorting(message)),
    }
}

/// Sorts an array of a script.
pub(crate) fn sort_ascending(values: &mut Vec<rhai::Dynamic>) -> (r: Result<
    (),
    Box<rhai::EvalAltResult>,
>)
    ensures
        array_sorted(old(values)@, final(values)@, false, r),
{
    sort_array(values, false)
}

/// Sorts an array of a script in descending order.
pub(crate) fn sort_descending(values: &mut Vec<rhai::Dynamic>) -> (r: Result<
    (),
    Box<rhai::EvalAltResult>,
>)
    ensures
        array_sorted(old(values)@, final(values)@, true, r),
{
    sort_array(values, true)
}

/// The second array is a copy of the first.
pub open spec fn copied(values: Seq<rhai::Dynamic>, copy: Seq<rhai::Dynamic>) -> bool {
    copy.len() == values.len() && forall|i: int|
        0 <= i < values.len() ==> cloned(#[trigger] values[i], copy[i])
}

/// A sorted copy of an array was returned, or the reason why there is none.
pub open spec fn copy_sorted(
    values: Seq<rhai::Dynamic>,
    descending: bool,
    r: Result<Vec<rhai::Dynamic>, Box<rhai::EvalAltResult>>,
) -> bool {
    exists|copy: Seq<rhai::Dynamic>| #[trigger]
        copied(values, copy) && match (r, sort_fault(script_keys(copy))) {
            (Ok(sorted), None) => sorted@ == items_at(
                copy,
                sort_order(script_keys(copy), descending, copy.len()),
            ),
            (Err(error), Some(expected)) => sort_refusal(*error) == expected,
            _ => false,
        }
}

fn ordered(values: &Vec<rhai::Dynamic>, descending: bool) -> (r: Result<
    Vec<rhai::Dynamic>,
    Box<rhai::EvalAltResult>,
>)
    ensures
        copy_sorted(values@, descending, r),
{
    let mut copy = values.clone();
    let ghost start = copy@;
    proof {
        assert(copied(values@, start));
    }
    match sort_array(&mut copy, descending) {
        Ok(_) => Ok(copy),
        Err(error) => Err(error),
    }
}

/// A sorted copy of an array of a script.
pub(crate) fn ordered_ascending(values: &mut Vec<rhai::Dynamic>) -> (r: Result<
    Vec<rhai::Dynamic>,
    Box<rhai::EvalAltResult>,
>)
    ensures
        final(values)@ == old(values)@,
        copy_sorted(old(values)@, false, r),
{
    ordered(values, false)
}

/// A copy of an array of a script in descending order.
pub(crate) fn ordered_descending(values: &mut Vec<rhai::Dynamic>) -> (r: Result<
    Vec<rhai::Dynamic>,
    Box<rhai::EvalAltResult>,
>)
    ensures
        final(values)@ == old(values)@,
        copy_sorted(old(values)@, true, r),
{
    ordered(values, true)
}

proof fn nothing_precedes_itself(key: KeyModel, descending: bool)
    ensures
        !comes_before(key, key, descending),
{
    if let KeyModel::Text(text) = key {
        text_less_irreflexive(text);
    }
}

/// Of two equal values the one that came first stays first, in either direction.
pub proof fn equal_values_keep_their_order(
    keys: Seq<KeyModel>,
    descending: bool,
    n: nat,
    i: int,
    j: int,
)
    requires
        n <= keys.len(),
        0 <= i < j < n,
        keys[sort_order(keys, descending, n)[i]] == keys[sort_order(keys, descending, n)[j]],
    ensures
        sort_order(keys, descending, n)[i] < sort_order(keys, descending, n)[j],
    decreases n,
{
    let m = (n - 1) as nat;
    order_bounds(keys, descending, n);
    order_bounds(keys, descending, m);
    let before = sort_order(keys, descending, m);
    let sorted = keys_at(keys, before);
    let key = keys[n - 1];
    let p = place(sorted, key, descending, m) as int;
    place_is_right(sorted, key, descending, m);
    let after = sort_order(keys, descending, n);
    assert(after == before.insert(p, n - 1));
    if j == p {
        assert(after[i] == before[i]);
    } else if i == p {
        assert(after[j] == before[j - 1]);
        assert(sorted[j - 1] == keys[before[j - 1]]);
        nothing_precedes_itself(key, descending);
    } else {
        let x = if i < p {
            i
        } else {
            i - 1
        };
        let y = if j < p {
            j
        } else {
            j - 1
        };
        assert(after[i] == before[x] && after[j] == before[y]);
        equal_values_keep_their_order(keys, descending, m, x, y);
    }
}

} // verus!
