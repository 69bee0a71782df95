//! Writing a scene document as text.
//!
//! The text is a JSON object with the members `nodes` and `assets`, laid out
//! with one value on each line and two spaces for each level of nesting. Its
//! bytes depend on nothing but the document.

use crate::assets::texts;
use crate::document::{DocumentView, SceneDocument};
use crate::record::{forest_view, lemma_children_view, NodeRecord, RecordView};
use crate::scalar::Scalar;
use crate::transform::all_finite;
use vstd::pervasive::unreached;
use vstd::prelude::*;
use vstd::utf8::encode_utf8;

verus! {

/// Why a document cannot be written.
#[derive(Clone, Copy, Debug, PartialEq, Eq, Structural)]
pub enum SerializationError {
    /// Some transform holds a NaN or an infinity.
    NonFiniteNumber,
}

/// The lower-case hexadecimal digit for `d`, as its ASCII code.
pub open spec fn hex_digit(d: u8) -> u8 {
    if d < 10 {
        (48 + d) as u8
    } else {
        (87 + d) as u8
    }
}

/// How one byte of a string stands inside a JSON string literal: the quote, the
/// backslash and the control characters are escaped, all else stands for itself.
pub open spec fn escaped_byte(b: u8) -> Seq<u8> {
    if b == 34 {
        seq![92u8, 34u8]
    } else if b == 92 {
        seq![92u8, 92u8]
    } else if b == 8 {
        seq![92u8, 98u8]
    } else if b == 9 {
        seq![92u8, 116u8]
    } else if b == 10 {
        seq![92u8, 110u8]
    } else if b == 12 {
        seq![92u8, 102u8]
    } else if b == 13 {
        seq![92u8, 114u8]
    } else if b < 32 {
        seq![92u8, 117u8, 48u8, 48u8, hex_digit(b / 16), hex_digit(b % 16)]
    } else {
        seq![b]
    }
}

/// The bytes of a string with each of them escaped.
pub open spec fn escaped(bytes: Seq<u8>) -> Seq<u8>
    decreases bytes.len(),
{
    if bytes.len() == 0 {
        Seq::<u8>::empty()
    } else {
        escaped(bytes.drop_last()) + escaped_byte(bytes.last())
    }
}

/// The JSON string literal of a text: its UTF-8 bytes, escaped, between quotes.
pub open spec fn quoted(text: Seq<char>) -> Seq<u8> {
    seq![34u8] + escaped(encode_utf8(text)) + seq![34u8]
}

/// A line break followed by the indentation `pad`.
pub open spec fn line(pad: Seq<u8>) -> Seq<u8> {
    seq![10u8] + pad
}

/// The indentation one level below `pad`.
pub open spec fn deeper(pad: Seq<u8>) -> Seq<u8> {
    pad + seq![32u8, 32u8]
}

/// The items, each on a line of its own after the indentation `pad`, with a
/// comma between one and the next.
pub open spec fn listed(items: Seq<Seq<u8>>, pad: Seq<u8>) -> Seq<u8>
    decreases items.len(),
{
    if items.len() == 0 {
        Seq::<u8>::empty()
    } else {
        listed(items.drop_last(), pad) + (if items.len() > 1 {
            seq![44u8]
        } else {
            Seq::<u8>::empty()
        }) + line(pad) + items.last()
    }
}

/// An array of the items, itself indented by `pad`; an empty array is `[]`.
pub open spec fn array_text(items: Seq<Seq<u8>>, pad: Seq<u8>) -> Seq<u8> {
    if items.len() == 0 {
        seq![91u8, 93u8]
    } else {
        seq![91u8] + listed(items, deeper(pad)) + line(pad) + seq![93u8]
    }
}

/// An object of the members, itself indented by `pad`.
pub open spec fn object_text(members: Seq<Seq<u8>>, pad: Seq<u8>) -> Seq<u8> {
    seq![123u8] + listed(members, deeper(pad)) + line(pad) + seq![125u8]
}

/// A member of an object: the key, a colon, a space, the value.
pub open spec fn member(key: Seq<char>, value: Seq<u8>) -> Seq<u8> {
    quoted(key) + seq![58u8, 32u8] + value
}

/// The decimal texts of the numbers.
pub open spec fn number_items(numbers: Seq<Scalar>) -> Seq<Seq<u8>> {
    Seq::new(numbers.len(), |i: int| numbers[i].decimal_text())
}

/// The string literals of the texts.
pub open spec fn string_items(strings: Seq<Seq<char>>) -> Seq<Seq<u8>> {
    Seq::new(strings.len(), |i: int| quoted(strings[i]))
}

/// The members of a node, in the order in which they are written.
pub open spec fn node_members(node: RecordView, pad: Seq<u8>) -> Seq<Seq<u8>>
    decreases node, 1nat,
{
    seq![
        member("name"@, quoted(node.name)),
        member("position"@, array_text(number_items(node.transform.position@), deeper(pad))),
        member("rotation"@, array_text(number_items(node.transform.rotation@), deeper(pad))),
        member("scale"@, array_text(number_items(node.transform.scale@), deeper(pad))),
        member("children"@, array_text(node_items(node.children, deeper(pad)), deeper(pad))),
    ]
}

/// The text of a node indented by `pad`, with all that is nested in it.
pub open spec fn node_text(node: RecordView, pad: Seq<u8>) -> Seq<u8>
    decreases node, 2nat,
{
    object_text(node_members(node, pad), pad)
}

/// The texts of the nodes of an array that is indented by `pad`.
pub open spec fn node_items(nodes: Seq<RecordView>, pad: Seq<u8>) -> Seq<Seq<u8>>
    decreases nodes, 0nat,
{
    Seq::new(
        nodes.len(),
        |i: int|
            if 0 <= i < nodes.len() {
                node_text(nodes[i], deeper(pad))
            } else {
                Seq::<u8>::empty()
            },
    )
}

/// The members of a document.
pub open spec fn document_members(doc: DocumentView) -> Seq<Seq<u8>> {
    let pad = deeper(Seq::<u8>::empty());
    seq![
        member("nodes"@, array_text(node_items(doc.nodes, pad), pad)),
        member("assets"@, array_text(string_items(doc.assets), pad)),
    ]
}

/// The text of a document.
pub open spec fn document_text(doc: DocumentView) -> Seq<u8> {
    object_text(document_members(doc), Seq::<u8>::empty())
}

/// Every number of the node and of all that is nested in it is finite.
pub open spec fn node_finite(node: RecordView) -> bool
    decreases node,
{
    &&& node.transform.finite()
    &&& forall|i: int| 0 <= i < node.children.len() ==> node_finite(#[trigger] node.children[i])
}

/// Every number of every node is finite.
pub open spec fn forest_finite(nodes: Seq<RecordView>) -> bool {
    forall|i: int| 0 <= i < nodes.len() ==> node_finite(#[trigger] nodes[i])
}

/// Calls `serde_json::to_vec` on a string slice, which writes the slice as a
/// JSON string literal: a quote, the bytes of the slice with the quote, the
/// backslash and the bytes below 32 escaped as `escaped_byte` says, and a
/// quote. Of the two causes of failure that serde_json names, a `Serialize`
/// impl that fails and a map key that is no string, neither can arise for a
/// string slice, and the bytes go to a vector in memory: the call returns `Ok`.
#[verifier::external_body]
fn quote(text: &str) -> (r: Option<Vec<u8>>)
    ensures
        r is Some,
        r.unwrap()@ == quoted(text@),
{
    serde_json::to_vec(text).ok()
}

/// Appends the JSON string literal of `text`.
fn write_string(out: &mut Vec<u8>, text: &str)
    ensures
        final(out)@ == old(out)@ + quoted(text@),
{
    match quote(text) {
        Some(mut bytes) => {
            out.append(&mut bytes);
        },
        None => unreached(),
    }
}

/// Appends `bytes`.
fn write_bytes(out: &mut Vec<u8>, bytes: &Vec<u8>)
    ensures
        final(out)@ == old(out)@ + bytes@,
{
    let mut i: usize = 0;
    while i < bytes.len()
        invariant
            i <= bytes@.len(),
            out@ == old(out)@ + bytes@.take(i as int),
        decreases bytes@.len() - i,
    {
        out.push(bytes[i]);
        proof {
            assert(bytes@.take(i + 1) =~= bytes@.take(i as int).push(bytes@[i as int]));
        }
        i = i + 1;
    }
    proof {
        assert(bytes@.take(i as int) =~= bytes@);
    }
}

/// The indentation one level below `pad`.
fn indent(pad: &Vec<u8>) -> (inner: Vec<u8>)
    ensures
        inner@ == deeper(pad@),
{
    let mut inner: Vec<u8> = Vec::new();
    write_bytes(&mut inner, pad);
    inner.push(32u8);
    inner.push(32u8);
    proof {
        assert(inner@ =~= deeper(pad@));
    }
    inner
}

/// Begins the item numbered `done` of a list: a comma after an earlier item,
/// then a new line and the indentation.
fn write_break(out: &mut Vec<u8>, done: usize, pad: &Vec<u8>)
    ensures
        final(out)@ == old(out)@ + (if done > 0 {
            seq![44u8]
        } else {
            Seq::<u8>::empty()
        }) + line(pad@),
{
    if done > 0 {
        out.push(44u8);
    }
    out.push(10u8);
    write_bytes(out, pad);
    proof {
        assert(out@ =~= old(out)@ + (if done > 0 {
            seq![44u8]
        } else {
            Seq::<u8>::empty()
        }) + line(pad@));
    }
}

/// One more item of a list: what `listed` says of the first `done + 1` items
/// is what it says of the first `done`, then the break, then the item.
proof fn lemma_listed_next(items: Seq<Seq<u8>>, done: int, pad: Seq<u8>)
    requires
        0 <= done < items.len(),
    ensures
        listed(items.take(done + 1), pad) == listed(items.take(done), pad) + (if done > 0 {
            seq![44u8]
        } else {
            Seq::<u8>::empty()
        }) + line(pad) + items[done],
{
    assert(items.take(done + 1).drop_last() =~= items.take(done));
}

/// One more item of a list: after the break and the item numbered `k`, the
/// first `k + 1` items are written.
proof fn lemma_item_written(
    start: Seq<u8>,
    items: Seq<Seq<u8>>,
    k: int,
    pad: Seq<u8>,
    before: Seq<u8>,
    after: Seq<u8>,
)
    requires
        0 <= k < items.len(),
        before == start + listed(items.take(k), pad),
        after == before + (if k > 0 {
            seq![44u8]
        } else {
            Seq::<u8>::empty()
        }) + line(pad) + items[k],
    ensures
        after == start + listed(items.take(k + 1), pad),
{
    lemma_listed_next(items, k, pad);
    assert(after =~= start + listed(items.take(k + 1), pad));
}

/// Before any item, nothing of a list is written.
proof fn lemma_list_opened(first: Seq<u8>, open: u8, items: Seq<Seq<u8>>, pad: Seq<u8>)
    ensures
        first.push(open) == first + seq![open] + listed(items.take(0), pad),
{
    assert(items.take(0) =~= Seq::<Seq<u8>>::empty());
    assert(first.push(open) =~= first + seq![open] + listed(items.take(0), pad));
}

/// After the items, a line break, the indentation and the closing bracket
/// complete the array.
proof fn lemma_array_closed(
    first: Seq<u8>,
    items: Seq<Seq<u8>>,
    pad: Seq<u8>,
    before: Seq<u8>,
    after: Seq<u8>,
)
    requires
        items.len() > 0,
        before == first + seq![91u8] + listed(items.take(items.len() as int), deeper(pad)),
        after == (before.push(10u8) + pad).push(93u8),
    ensures
        after == first + array_text(items, pad),
{
    assert(items.take(items.len() as int) =~= items);
    assert(after =~= first + array_text(items, pad));
}

/// An array without items is an opening and a closing bracket.
proof fn lemma_array_empty(first: Seq<u8>, items: Seq<Seq<u8>>, pad: Seq<u8>)
    requires
        items.len() == 0,
    ensures
        first.push(91u8).push(93u8) == first + array_text(items, pad),
{
    assert(first.push(91u8).push(93u8) =~= first + array_text(items, pad));
}

/// Appends an array of numbers that is itself indented by `pad`.
fn write_numbers<const N: usize>(out: &mut Vec<u8>, numbers: &[Scalar; N], pad: &Vec<u8>)
    requires
        all_finite(numbers@),
    ensures
        final(out)@ == old(out)@ + array_text(number_items(numbers@), pad@),
{
    let ghost items = number_items(numbers@);
    let ghost first = old(out)@;
    if N == 0 {
        out.push(91u8);
        out.push(93u8);
        proof {
            lemma_array_empty(first, items, pad@);
        }
    } else {
        let inner = indent(pad);
        out.push(91u8);
        proof {
            lemma_list_opened(first, 91u8, items, inner@);
        }
        let mut i: usize = 0;
        while i < N
            invariant
                i <= N,
                items.len() == N,
                inner@ == deeper(pad@),
                items == number_items(numbers@),
                N == numbers@.len(),
                all_finite(numbers@),
                out@ == first + seq![91u8] + listed(items.take(i as int), inner@),
            decreases N - i,
        {
            let ghost before = out@;
            write_break(out, i, &inner);
            numbers[i].write_decimal(out);
            proof {
                assert(items[i as int] == numbers@[i as int].decimal_text());
                lemma_item_written(first + seq![91u8], items, i as int, inner@, before, out@);
            }
            i = i + 1;
        }
        let ghost before = out@;
        out.push(10u8);
        write_bytes(out, pad);
        out.push(93u8);
        proof {
            lemma_array_closed(first, items, pad@, before, out@);
        }
    }
}

/// Appends an array of string literals that is itself indented by `pad`.
fn write_strings(out: &mut Vec<u8>, strings: &Vec<String>, pad: &Vec<u8>)
    ensures
        final(out)@ == old(out)@ + array_text(string_items(texts(strings@)), pad@),
{
    let ghost items = string_items(texts(strings@));
    let ghost first = old(out)@;
    if strings.len() == 0 {
        out.push(91u8);
        out.push(93u8);
        proof {
            lemma_array_empty(first, items, pad@);
        }
    } else {
        let inner = indent(pad);
        out.push(91u8);
        proof {
            lemma_list_opened(first, 91u8, items, inner@);
        }
        let mut i: usize = 0;
        while i < strings.len()
            invariant
                i <= strings.len(),
                items.len() == strings.len(),
                inner@ == deeper(pad@),
                items == string_items(texts(strings@)),
                out@ == first + seq![91u8] + listed(items.take(i as int), inner@),
            decreases strings.len() - i,
        {
            let ghost before = out@;
            write_break(out, i, &inner);
            write_string(out, strings[i].as_str());
            proof {
                assert(items[i as int] == quoted(strings@[i as int]@));
                lemma_item_written(first + seq![91u8], items, i as int, inner@, before, out@);
            }
            i = i + 1;
        }
        let ghost before = out@;
        out.push(10u8);
        write_bytes(out, pad);
        out.push(93u8);
        proof {
            lemma_array_closed(first, items, pad@, before, out@);
        }
    }
}

/// Begins the member numbered `done` of an object: the break, the key, a
/// colon and a space.
fn write_key(out: &mut Vec<u8>, done: usize, pad: &Vec<u8>, key: &str)
    ensures
        final(out)@ == old(out)@ + (if done > 0 {
            seq![44u8]
        } else {
            Seq::<u8>::empty()
        }) + line(pad@) + quoted(key@) + seq![58u8, 32u8],
{
    write_break(out, done, pad);
    write_string(out, key);
    out.push(58u8);
    out.push(32u8);
    proof {
        assert(out@ =~= old(out)@ + (if done > 0 {
            seq![44u8]
        } else {
            Seq::<u8>::empty()
        }) + line(pad@) + quoted(key@) + seq![58u8, 32u8]);
    }
}

/// Whether every number of the node and of all that is nested in it is finite.
fn record_finite(node: &NodeRecord) -> (ok: bool)
    ensures
        ok == node_finite(node@),
    decreases node,
{
    proof {
        lemma_children_view(*node);
    }
    node.transform.is_finite() && records_finite(&node.children)
}

/// Whether every number of every record is finite.
fn records_finite(nodes: &Vec<NodeRecord>) -> (ok: bool)
    ensures
        ok == forest_finite(forest_view(nodes@)),
    decreases nodes,
{
    let mut i: usize = 0;
    while i < nodes.len()
        invariant
            i <= nodes@.len(),
            forall|j: int| 0 <= j < i ==> node_finite(#[trigger] forest_view(nodes@)[j]),
        decreases nodes@.len() - i,
    {
        if !record_finite(&nodes[i]) {
            assert(!node_finite(forest_view(nodes@)[i as int]));
            return false;
        }
        i = i + 1;
    }
    true
}

/// One more member of an object: after the break, the key and the value of
/// the member numbered `k`, the first `k + 1` members are written.
proof fn lemma_member_written(
    start: Seq<u8>,
    members: Seq<Seq<u8>>,
    k: int,
    pad: Seq<u8>,
    key: Seq<char>,
    value: Seq<u8>,
    before: Seq<u8>,
    after: Seq<u8>,
)
    requires
        0 <= k < members.len(),
        members[k] == member(key, value),
        before == start + listed(members.take(k), pad),
        after == before + (if k > 0 {
            seq![44u8]
        } else {
            Seq::<u8>::empty()
        }) + line(pad) + quoted(key) + seq![58u8, 32u8] + value,
    ensures
        after == start + listed(members.take(k + 1), pad),
{
    lemma_listed_next(members, k, pad);
    assert(after =~= start + listed(members.take(k + 1), pad));
}

/// Appends the text of a node that is indented by `pad`.
#[verifier::rlimit(50)]
fn write_node(out: &mut Vec<u8>, node: &NodeRecord, pad: &Vec<u8>)
    requires
        node_finite(node@),
    ensures
        final(out)@ == old(out)@ + node_text(node@, pad@),
    decreases node,
{
    let inner = indent(pad);
    let ghost members = node_members(node@, pad@);
    let ghost start = old(out)@ + seq![123u8];
    proof {
        lemma_children_view(*node);
        assert(forest_finite(forest_view(node.children@))) by {
            assert forall|i: int| 0 <= i < node.children@.len() implies node_finite(
                #[trigger] forest_view(node.children@)[i],
            ) by {
                assert(node_finite(node@.children[i]));
            }
        }
        assert(members.len() == 5);
    }
    out.push(123u8);
    let ghost s0 = out@;
    assert(s0 =~= start + listed(members.take(0), inner@));
    write_key(out, 0, &inner, "name");
    write_string(out, node.name.as_str());
    let ghost s1 = out@;
    proof {
        lemma_member_written(start, members, 0, inner@, "name"@, quoted(node@.name), s0, s1);
    }
    write_key(out, 1, &inner, "position");
    write_numbers(out, &node.transform.position, &inner);
    let ghost s2 = out@;
    proof {
        lemma_member_written(
            start,
            members,
            1,
            inner@,
            "position"@,
            array_text(number_items(node@.transform.position@), inner@),
            s1,
            s2,
        );
    }
    write_key(out, 2, &inner, "rotation");
    write_numbers(out, &node.transform.rotation, &inner);
    let ghost s3 = out@;
    proof {
        lemma_member_written(
            start,
            members,
            2,
            inner@,
            "rotation"@,
            array_text(number_items(node@.transform.rotation@), inner@),
            s2,
            s3,
        );
    }
    write_key(out, 3, &inner, "scale");
    write_numbers(out, &node.transform.scale, &inner);
    let ghost s4 = out@;
    proof {
        lemma_member_written(
            start,
            members,
            3,
            inner@,
            "scale"@,
            array_text(number_items(node@.transform.scale@), inner@),
            s3,
            s4,
        );
    }
    write_key(out, 4, &inner, "children");
    write_nodes(out, &node.children, &inner);
    let ghost s5 = out@;
    proof {
        lemma_member_written(
            start,
            members,
            4,
            inner@,
            "children"@,
            array_text(node_items(node@.children, inner@), inner@),
            s4,
            s5,
        );
        assert(members.take(5) =~= members);
    }
    out.push(10u8);
    write_bytes(out, pad);
    out.push(125u8);
    proof {
        lemma_object_closed(old(out)@, members, pad@, s5, out@);
    }
}

/// After the members, a line break, the indentation and the closing brace
/// complete the object.
proof fn lemma_object_closed(
    first: Seq<u8>,
    members: Seq<Seq<u8>>,
    pad: Seq<u8>,
    before: Seq<u8>,
    after: Seq<u8>,
)
    requires
        before == first + seq![123u8] + listed(members, deeper(pad)),
        after == before.push(10u8) + pad + seq![125u8] || after == (before.push(10u8)
            + pad).push(125u8),
    ensures
        after == first + object_text(members, pad),
{
    assert(after =~= first + object_text(members, pad));
}

/// Appends an array of nodes that is itself indented by `pad`.
#[verifier::rlimit(50)]
fn write_nodes(out: &mut Vec<u8>, nodes: &Vec<NodeRecord>, pad: &Vec<u8>)
    requires
        forest_finite(forest_view(nodes@)),
    ensures
        final(out)@ == old(out)@ + array_text(node_items(forest_view(nodes@), pad@), pad@),
    decreases nodes,
{
    let ghost items = node_items(forest_view(nodes@), pad@);
    let ghost first = old(out)@;
    if nodes.len() == 0 {
        out.push(91u8);
        out.push(93u8);
        proof {
            lemma_array_empty(first, items, pad@);
        }
    } else {
        let inner = indent(pad);
        out.push(91u8);
        proof {
            lemma_list_opened(first, 91u8, items, inner@);
        }
        let mut i: usize = 0;
        while i < nodes.len()
            invariant
                i <= nodes.len(),
                items.len() == nodes.len(),
                inner@ == deeper(pad@),
                items == node_items(forest_view(nodes@), pad@),
                forest_finite(forest_view(nodes@)),
                out@ == first + seq![91u8] + listed(items.take(i as int), inner@),
            decreases nodes.len() - i,
        {
            let ghost before = out@;
            write_break(out, i, &inner);
            proof {
                assert(node_finite(forest_view(nodes@)[i as int]));
            }
            write_node(out, &nodes[i], &inner);
            proof {
                assert(items[i as int] == node_text(nodes@[i as int]@, inner@));
                lemma_item_written(first + seq![91u8], items, i as int, inner@, before, out@);
            }
            i = i + 1;
        }
        let ghost before = out@;
        out.push(10u8);
        write_bytes(out, pad);
        out.push(93u8);
        proof {
            lemma_array_closed(first, items, pad@, before, out@);
        }
    }
}

/// Writes the document as text.
///
/// Fails where some transform of the document holds a NaN or an infinity, and
/// only there. The text is `document_text` of the document: the same document
/// always gives the same bytes.
#[verifier::rlimit(50)]
pub fn serialize(doc: &SceneDocument) -> (r: Result<Vec<u8>, SerializationError>)
    ensures
        match r {
            Ok(bytes) => forest_finite(doc@.nodes) && bytes@ == document_text(doc@),
            Err(e) => !forest_finite(doc@.nodes) && e == SerializationError::NonFiniteNumber,
        },
{
    let nodes = doc.nodes();
    let assets = doc.assets();
    if !records_finite(nodes) {
        return Err(SerializationError::NonFiniteNumber);
    }
    let mut out: Vec<u8> = Vec::new();
    let pad: Vec<u8> = Vec::new();
    let inner = indent(&pad);
    let ghost members = document_members(doc@);
    let ghost start = seq![123u8];
    proof {
        assert(pad@ =~= Seq::<u8>::empty());
        assert(members.len() == 2);
    }
    out.push(123u8);
    let ghost s0 = out@;
    assert(s0 =~= start + listed(members.take(0), inner@));
    write_key(&mut out, 0, &inner, "nodes");
    write_nodes(&mut out, nodes, &inner);
    let ghost s1 = out@;
    proof {
        lemma_member_written(
            start,
            members,
            0,
            inner@,
            "nodes"@,
            array_text(node_items(doc@.nodes, inner@), inner@),
            s0,
            s1,
        );
    }
    write_key(&mut out, 1, &inner, "assets");
    write_strings(&mut out, assets, &inner);
    let ghost s2 = out@;
    proof {
        lemma_member_written(
            start,
            members,
            1,
            inner@,
            "assets"@,
            array_text(string_items(doc@.assets), inner@),
            s1,
            s2,
        );
        assert(members.take(2) =~= members);
    }
    out.push(10u8);
    out.push(125u8);
    proof {
        assert(s2 == Seq::<u8>::empty() + seq![123u8] + listed(members, deeper(pad@))) by {
            assert(Seq::<u8>::empty() + seq![123u8] =~= start);
        }
        assert(out@ =~= s2.push(10u8) + pad@ + seq![125u8]);
        lemma_object_closed(Seq::<u8>::empty(), members, pad@, s2, out@);
        assert(Seq::<u8>::empty() + object_text(members, pad@) =~= object_text(members, pad@));
    }
    Ok(out)
}

/// The text of a document depends on nothing but what the document is: two
/// documents with the same trees and the same asset list have the same text.
pub proof fn lemma_text_determined(a: SceneDocument, b: SceneDocument)
    requires
        a@ == b@,
    ensures
        document_text(a@) == document_text(b@),
{
}

} // verus!
