//! What signatures and fingerprints of services tell apart.
use crate::abi::{
    interface_hash, interface_lines, interface_text, method_number, named_lines, not_after,
    not_after_is_an_order, signature, signatures, MethodModel,
};
use crate::digest::blake3_digest;
use crate::text::{join, text_less};
use vstd::prelude::*;
use vstd::relations::sorted_by;
use vstd::seq_lib::{lemma_fold_right_permutation, lemma_sorted_unique};
use vstd::utf8::{encode_utf8, encode_utf8_decode_utf8};

verus! {

/// What stands before, between and behind the occurrences of a character.
pub open spec fn pieces(text: Seq<char>, at: char) -> Seq<Seq<char>>
    decreases text.len(),
{
    if text.len() == 0 {
        seq![Seq::empty()]
    } else {
        let before = pieces(text.drop_last(), at);
        if text.last() == at {
            before.push(Seq::empty())
        } else {
            before.drop_last().push(before.last().push(text.last()))
        }
    }
}

pub proof fn pieces_exist(text: Seq<char>, at: char)
    ensures
        pieces(text, at).len() > 0,
    decreases text.len(),
{
    if text.len() > 0 {
        pieces_exist(text.drop_last(), at);
    }
}

/// A text without the character is one piece.
proof fn whole_is_one_piece(text: Seq<char>, at: char)
    requires
        !text.contains(at),
    ensures
        pieces(text, at) == seq![text],
    decreases text.len(),
{
    if text.len() > 0 {
        let shorter = text.drop_last();
        assert(text.contains(text.last()));
        assert forall|k: int| 0 <= k < shorter.len() implies shorter[k] != at by {
            assert(text.contains(text[k]));
        }
        whole_is_one_piece(shorter, at);
        assert(shorter.push(text.last()) =~= text);
        assert(pieces(text, at) =~= seq![text]);
    } else {
        assert(text =~= Seq::empty());
    }
}

/// A text behind the character is one more piece.
proof fn one_more_piece(text: Seq<char>, at: char, last: Seq<char>)
    requires
        !last.contains(at),
    ensures
        pieces(text.push(at) + last, at) == pieces(text, at).push(last),
    decreases last.len(),
{
    let whole = text.push(at) + last;
    pieces_exist(text, at);
    if last.len() == 0 {
        assert(whole =~= text.push(at));
        assert(whole.drop_last() =~= text);
        assert(last =~= Seq::empty());
    } else {
        let shorter = last.drop_last();
        assert(last.contains(last.last()));
        assert forall|k: int| 0 <= k < shorter.len() implies shorter[k] != at by {
            assert(last.contains(last[k]));
        }
        one_more_piece(text, at, shorter);
        assert(whole.drop_last() =~= text.push(at) + shorter);
        assert(shorter.push(last.last()) =~= last);
        assert(pieces(whole, at) =~= pieces(text, at).push(last));
    }
}

/// A text is made of its pieces.
proof fn pieces_make_the_text(a: Seq<char>, b: Seq<char>, at: char)
    requires
        pieces(a, at) == pieces(b, at),
    ensures
        a == b,
    decreases a.len(),
{
    let x = pieces(a, at);
    if a.len() > 0 {
        pieces_exist(a.drop_last(), at);
    }
    if b.len() > 0 {
        pieces_exist(b.drop_last(), at);
    }
    if a.len() == 0 || b.len() == 0 {
        assert(x.len() == 1 && x.last().len() == 0);
        assert(a =~= b);
    } else {
        let p = pieces(a.drop_last(), at);
        let q = pieces(b.drop_last(), at);
        if a.last() == at {
            assert(x.last().len() == 0);
            assert(b.last() == at);
            assert(p =~= x.drop_last());
            assert(q =~= x.drop_last());
        } else {
            assert(x.last().len() > 0);
            assert(b.last() != at);
            assert(x.last().last() == a.last());
            assert(x.last().last() == b.last());
            assert(p =~= x.drop_last().push(x.last().drop_last())) by {
                assert(x.drop_last() =~= p.drop_last());
                assert(x.last().drop_last() =~= p.last());
            }
            assert(q =~= x.drop_last().push(x.last().drop_last())) by {
                assert(x.drop_last() =~= q.drop_last());
                assert(x.last().drop_last() =~= q.last());
            }
        }
        pieces_make_the_text(a.drop_last(), b.drop_last(), at);
        assert(a =~= a.drop_last().push(a.last()));
        assert(b =~= b.drop_last().push(b.last()));
    }
}

/// Joined with a character that none of them holds, texts can be told apart again.
pub proof fn joined_texts_come_apart(parts: Seq<Seq<char>>, at: char)
    requires
        parts.len() > 0,
        forall|i: int| 0 <= i < parts.len() ==> !(#[trigger] parts[i]).contains(at),
    ensures
        pieces(join(parts, seq![at]), at) == parts,
    decreases parts.len(),
{
    if parts.len() == 1 {
        whole_is_one_piece(parts[0], at);
        assert(parts =~= seq![parts[0]]);
    } else {
        let fewer = parts.drop_last();
        assert forall|i: int| 0 <= i < fewer.len() implies !(#[trigger] fewer[i]).contains(at) by {
            assert(fewer[i] == parts[i]);
        }
        joined_texts_come_apart(fewer, at);
        let head = join(fewer, seq![at]);
        one_more_piece(head, at, parts.last());
        assert(head + seq![at] + parts.last() =~= head.push(at) + parts.last());
        assert(fewer.push(parts.last()) =~= parts);
    }
}

proof fn lines_of_an_interface(name: Seq<char>, ordered: Seq<Seq<char>>, n: nat)
    requires
        n <= ordered.len(),
        !name.contains('\n'),
        forall|i: int| 0 <= i < ordered.len() ==> !(#[trigger] ordered[i]).contains('\n'),
    ensures
        pieces(interface_lines(name, ordered, n), '\n') == seq![name] + ordered.take(n as int),
    decreases n,
{
    if n == 0 {
        whole_is_one_piece(name, '\n');
        assert(seq![name] + ordered.take(0) =~= seq![name]);
    } else {
        let before = interface_lines(name, ordered, (n - 1) as nat);
        lines_of_an_interface(name, ordered, (n - 1) as nat);
        one_more_piece(before, '\n', ordered[n - 1]);
        assert((seq![name] + ordered.take(n - 1)).push(ordered[n - 1]) =~= seq![name]
            + ordered.take(n as int));
    }
}

/// The signatures in text order are the declared ones.
proof fn ordered_signatures(methods: Seq<MethodModel>)
    ensures
        ({
            let ordered = signatures(methods).sort_by(not_after());
            &&& ordered.len() == methods.len()
            &&& ordered.to_multiset() == Seq::new(
                methods.len(),
                |i: int| signature(methods[i]),
            ).to_multiset()
            &&& sorted_by(ordered, not_after())
        }),
{
    not_after_is_an_order();
    signatures(methods).lemma_sort_by_ensures(not_after());
    broadcast use vstd::seq_lib::group_to_multiset_ensures;

    let all = signatures(methods);
    assert(all =~= Seq::new(methods.len(), |i: int| signature(methods[i])));
    assert(all.to_multiset().len() == all.sort_by(not_after()).to_multiset().len());
}

proof fn ordered_signatures_are_lines(methods: Seq<MethodModel>)
    requires
        forall|i: int| 0 <= i < methods.len() ==> !signature(#[trigger] methods[i]).contains('\n'),
    ensures
        ({
            let ordered = signatures(methods).sort_by(not_after());
            forall|i: int| 0 <= i < ordered.len() ==> !(#[trigger] ordered[i]).contains('\n')
        }),
{
    broadcast use vstd::seq_lib::group_to_multiset_ensures;

    ordered_signatures(methods);
    let all = signatures(methods);
    let ordered = all.sort_by(not_after());
    assert forall|i: int| 0 <= i < ordered.len() implies !(#[trigger] ordered[i]).contains(
        '\n',
    ) by {
        assert(ordered.contains(ordered[i]));
        assert(ordered.to_multiset().count(ordered[i]) > 0);
        assert(all =~= Seq::new(methods.len(), |i: int| signature(methods[i])));
        assert(all.contains(ordered[i]));
        let k = choose|k: int| 0 <= k < all.len() && all[k] == ordered[i];
        assert(all[k] == signature(methods[k]));
    }
}

/// The fingerprint of a service is the digest of the text whose first line is the name and whose
/// other lines are the signatures of all declared methods, as often as they are declared, in
/// ascending order.
pub proof fn fingerprints_cover_every_signature(
    name: Seq<char>,
    methods: Seq<MethodModel>,
    ordered: Seq<Seq<char>>,
    text: Seq<char>,
)
    requires
        !name.contains('\n'),
        forall|i: int| 0 <= i < methods.len() ==> !signature(#[trigger] methods[i]).contains('\n'),
        ordered.to_multiset() == Seq::new(
            methods.len(),
            |i: int| signature(methods[i]),
        ).to_multiset(),
        forall|i: int, j: int|
            0 <= i < j < ordered.len() ==> !text_less(#[trigger] ordered[j], #[trigger] ordered[i]),
        pieces(text, '\n') == seq![name] + ordered,
    ensures
        interface_hash(name, methods) == blake3_digest(encode_utf8(text)),
{
    not_after_is_an_order();
    ordered_signatures(methods);
    ordered_signatures_are_lines(methods);
    let mine = signatures(methods).sort_by(not_after());
    assert(sorted_by(ordered, not_after()));
    lemma_sorted_unique(ordered, mine, not_after());
    lines_of_an_interface(name, mine, methods.len());
    assert(mine.take(methods.len() as int) =~= mine);
    pieces_make_the_text(text, interface_text(name, methods), '\n');
}

/// How much room a line takes behind others.
pub open spec fn line_room() -> spec_fn(Seq<char>, int) -> int {
    |line: Seq<char>, n: int| n + 1 + line.len()
}

proof fn room_of_an_interface(name: Seq<char>, ordered: Seq<Seq<char>>, n: nat)
    requires
        n <= ordered.len(),
    ensures
        interface_lines(name, ordered, n).len() == ordered.take(n as int).fold_right(
            line_room(),
            name.len() as int,
        ),
    decreases n,
{
    if n > 0 {
        room_of_an_interface(name, ordered, (n - 1) as nat);
        room_of_one_more(ordered, n, name.len() as int);
    }
}

proof fn room_of_one_more(ordered: Seq<Seq<char>>, n: nat, start: int)
    requires
        0 < n <= ordered.len(),
    ensures
        ordered.take(n as int).fold_right(line_room(), start) == ordered.take(n - 1).fold_right(
            line_room(),
            start,
        ) + 1 + ordered[n - 1].len(),
{
    let f = line_room();
    let fewer = ordered.take(n - 1);
    assert(ordered.take(n as int).drop_last() =~= fewer);
    fewer.lemma_fold_right_commute_one(ordered[n - 1], f, start);
}

/// Whatever the name and the signatures hold, the text behind a fingerprint has room for the name
/// and for every signature with a newline before it.
pub proof fn fingerprints_leave_nothing_out(name: Seq<char>, methods: Seq<MethodModel>)
    ensures
        exists|text: Seq<char>|
            {
                &&& interface_hash(name, methods) == blake3_digest(#[trigger] encode_utf8(text))
                &&& text.len() == Seq::new(
                    methods.len(),
                    |i: int| signature(methods[i]),
                ).fold_right(line_room(), name.len() as int)
            },
{
    let all = signatures(methods);
    let ordered = all.sort_by(not_after());
    ordered_signatures(methods);
    assert(all =~= Seq::new(methods.len(), |i: int| signature(methods[i])));
    room_of_an_interface(name, ordered, methods.len());
    assert(ordered.take(methods.len() as int) =~= ordered);
    lemma_fold_right_permutation(ordered, all, line_room(), name.len() as int);
    let text = interface_text(name, methods);
    assert(interface_hash(name, methods) == blake3_digest(encode_utf8(text)));
}

/// Services whose names differ, or whose methods differ in any signature or in how often one is
/// declared, have different fingerprints, unless two different inputs have the same digest.
pub proof fn different_services_have_different_fingerprints(
    a: Seq<char>,
    first: Seq<MethodModel>,
    b: Seq<char>,
    second: Seq<MethodModel>,
)
    requires
        !a.contains('\n'),
        !b.contains('\n'),
        forall|i: int| 0 <= i < first.len() ==> !signature(#[trigger] first[i]).contains('\n'),
        forall|i: int| 0 <= i < second.len() ==> !signature(#[trigger] second[i]).contains('\n'),
        a != b || Seq::new(first.len(), |i: int| signature(first[i])).to_multiset() != Seq::new(
            second.len(),
            |i: int| signature(second[i]),
        ).to_multiset(),
        interface_hash(a, first) == interface_hash(b, second),
    ensures
        exists|x: Seq<u8>, y: Seq<u8>| x != y && #[trigger] blake3_digest(x)
            == #[trigger] blake3_digest(y),
{
    let x = interface_text(a, first);
    let y = interface_text(b, second);
    ordered_signatures(first);
    ordered_signatures(second);
    ordered_signatures_are_lines(first);
    ordered_signatures_are_lines(second);
    let p = signatures(first).sort_by(not_after());
    let q = signatures(second).sort_by(not_after());
    lines_of_an_interface(a, p, first.len());
    lines_of_an_interface(b, q, second.len());
    assert(p.take(first.len() as int) =~= p);
    assert(q.take(second.len() as int) =~= q);
    if x == y {
        assert((seq![a] + p)[0] == a);
        assert((seq![b] + q)[0] == b);
        assert((seq![a] + p).skip(1) =~= p);
        assert((seq![b] + q).skip(1) =~= q);
    }
    encode_utf8_decode_utf8(x);
    encode_utf8_decode_utf8(y);
    assert(blake3_digest(encode_utf8(x)) == blake3_digest(encode_utf8(y)));
}

/// A signature is the name, the arguments in parentheses and the two types of the result. The
/// arguments are separated by commas.
pub proof fn signatures_spell_methods(m: MethodModel, list: Seq<char>)
    requires
        forall|i: int| 0 <= i < m.arguments.len() ==> !(#[trigger] m.arguments[i]).contains(','),
        if m.arguments.len() == 0 {
            list.len() == 0
        } else {
            pieces(list, ',') == m.arguments
        },
    ensures
        signature(m) == m.name + "("@ + list + ")->Result<"@ + m.ok + ","@ + m.error + ">"@,
{
    reveal_strlit(",");
    assert(","@ =~= seq![',']);
    if m.arguments.len() == 0 {
        assert(list =~= Seq::empty());
    } else {
        joined_texts_come_apart(m.arguments, ',');
        pieces_make_the_text(list, join(m.arguments, ","@), ',');
    }
}

/// The number of a method is made of the first four bytes, least significant first, of the
/// digest of the text whose lines are the name of the service and the signature.
pub proof fn method_numbers_come_from_both_names(service: Seq<char>, m: MethodModel, text: Seq<char>)
    requires
        !service.contains('\n'),
        !signature(m).contains('\n'),
        pieces(text, '\n') == seq![service, signature(m)],
    ensures
        ({
            let digest = blake3_digest(encode_utf8(text));
            method_number(service, m) == digest[0] + 256 * digest[1] + 65536 * digest[2] + 16777216
                * digest[3]
        }),
{
    one_more_piece(service, '\n', signature(m));
    whole_is_one_piece(service, '\n');
    assert(seq![service].push(signature(m)) =~= seq![service, signature(m)]);
    pieces_make_the_text(text, named_lines(service, signature(m)), '\n');
}

/// Methods that differ just in their name, just in one argument, or just in one of the two types
/// of their result have different signatures, whatever these are spelled with.
pub proof fn signatures_tell_methods_apart(a: MethodModel, b: MethodModel, i: int)
    ensures
        a.name != b.name && a.arguments == b.arguments && a.ok == b.ok && a.error == b.error
            ==> signature(a) != signature(b),
        a.name == b.name && a.arguments == b.arguments && a.ok != b.ok && a.error == b.error
            ==> signature(a) != signature(b),
        a.name == b.name && a.arguments == b.arguments && a.ok == b.ok && a.error != b.error
            ==> signature(a) != signature(b),
        a.name == b.name && a.ok == b.ok && a.error == b.error && a.arguments.len()
            == b.arguments.len() && 0 <= i < a.arguments.len() && a.arguments[i] != b.arguments[i]
            && (forall|k: int|
            0 <= k < a.arguments.len() && k != i ==> a.arguments[k] == b.arguments[k])
            ==> signature(a) != signature(b),
{
    let comma = ","@;
    let x = join(a.arguments, comma);
    let y = join(b.arguments, comma);
    let open = "("@;
    let close = ")->Result<"@;
    let end = ">"@;
    if signature(a) == signature(b) {
        let whole = signature(a);
        if a.arguments == b.arguments && a.ok == b.ok && a.error == b.error {
            let rest = open + x + close + a.ok + comma + a.error + end;
            assert(whole =~= a.name + rest);
            assert(whole =~= b.name + rest);
            same_front(a.name, b.name, rest);
        }
        if a.name == b.name && a.arguments == b.arguments && a.error == b.error {
            let front = a.name + open + x + close;
            let rest = comma + a.error + end;
            assert(whole =~= front + (a.ok + rest));
            assert(whole =~= front + (b.ok + rest));
            same_back(front, a.ok + rest, b.ok + rest);
            same_front(a.ok, b.ok, rest);
        }
        if a.name == b.name && a.arguments == b.arguments && a.ok == b.ok {
            let front = a.name + open + x + close + a.ok + comma;
            assert(whole =~= front + (a.error + end));
            assert(whole =~= front + (b.error + end));
            same_back(front, a.error + end, b.error + end);
            same_front(a.error, b.error, end);
        }
        if a.name == b.name && a.ok == b.ok && a.error == b.error && a.arguments.len()
            == b.arguments.len() && 0 <= i < a.arguments.len() && (forall|k: int|
            0 <= k < a.arguments.len() && k != i ==> a.arguments[k] == b.arguments[k]) {
            let front = a.name + open;
            let rest = close + a.ok + comma + a.error + end;
            assert(whole =~= front + (x + rest));
            assert(whole =~= front + (y + rest));
            same_back(front, x + rest, y + rest);
            same_front(x, y, rest);
            one_part_of_a_list(a.arguments, b.arguments, comma, i);
        }
    }
}

proof fn same_front(a: Seq<char>, b: Seq<char>, rest: Seq<char>)
    requires
        a + rest == b + rest,
    ensures
        a == b,
{
    assert(a =~= (a + rest).take((a + rest).len() - rest.len()));
    assert(b =~= (b + rest).take((b + rest).len() - rest.len()));
}

proof fn same_back(front: Seq<char>, a: Seq<char>, b: Seq<char>)
    requires
        front + a == front + b,
    ensures
        a == b,
{
    assert(a =~= (front + a).skip(front.len() as int));
    assert(b =~= (front + b).skip(front.len() as int));
}

proof fn one_part_of_a_list(
    a: Seq<Seq<char>>,
    b: Seq<Seq<char>>,
    separator: Seq<char>,
    i: int,
)
    requires
        a.len() == b.len(),
        0 <= i < a.len(),
        forall|k: int| 0 <= k < a.len() && k != i ==> a[k] == b[k],
        join(a, separator) == join(b, separator),
    ensures
        a[i] == b[i],
    decreases a.len(),
{
    if a.len() > 1 {
        let x = join(a.drop_last(), separator);
        let y = join(b.drop_last(), separator);
        if i == a.len() - 1 {
            assert(a.drop_last() =~= b.drop_last());
            same_back(x + separator, a.last(), b.last());
        } else {
            assert(a.last() == b.last());
            assert(x + separator + a.last() =~= x + (separator + a.last()));
            assert(y + separator + b.last() =~= y + (separator + b.last()));
            same_front(x, y, separator + a.last());
            one_part_of_a_list(a.drop_last(), b.drop_last(), separator, i);
        }
    }
}

} // verus!
