//! The text codec: a human-readable serialization that opens with a `|`
//! delimiter and then renders each node as `var,low,high|`, every field in
//! decimal.  Decoding splits on the delimiter, discards empty pieces, and
//! requires each remaining segment to hold exactly three comma-separated
//! in-range decimal fields.

use vstd::prelude::*;
use vstd::arithmetic::div_mod::lemma_fundamental_div_mod;
use crate::diagram::{Bdd, BddNode, BddPointer, BddVariable};

verus! {

/// Whether `c` is a decimal digit.
pub open spec fn is_digit(c: char) -> bool {
    48 <= c as u32 <= 57
}

/// Numeric value of a decimal digit character.
pub open spec fn digit_val(c: char) -> nat
    recommends
        is_digit(c),
{
    (c as u32 - 48) as nat
}

/// The decimal digit character for a value below ten.
pub open spec fn digit_char(d: nat) -> char
    recommends
        d < 10,
{
    if d == 0 {
        '0'
    } else if d == 1 {
        '1'
    } else if d == 2 {
        '2'
    } else if d == 3 {
        '3'
    } else if d == 4 {
        '4'
    } else if d == 5 {
        '5'
    } else if d == 6 {
        '6'
    } else if d == 7 {
        '7'
    } else if d == 8 {
        '8'
    } else {
        '9'
    }
}

/// Decimal rendering of `n`: most significant digit first, no leading
/// zeros, a single `'0'` for zero.
pub open spec fn dec_digits(n: nat) -> Seq<char>
    decreases n,
{
    if n < 10 {
        seq![digit_char(n)]
    } else {
        dec_digits(n / 10) + seq![digit_char(n % 10)]
    }
}

/// Numeric value of a digit string, most significant digit first.
pub open spec fn dec_value(s: Seq<char>) -> nat
    decreases s.len(),
{
    if s.len() == 0 {
        0
    } else {
        dec_value(s.drop_last()) * 10 + digit_val(s.last())
    }
}

/// Whether `s` is a non-empty string of decimal digits.
pub open spec fn is_dec_digits(s: Seq<char>) -> bool {
    s.len() > 0 && forall|i: int| 0 <= i < s.len() ==> is_digit(#[trigger] s[i])
}

/// Whether `s` parses as an unsigned decimal number no larger than `max`.
pub open spec fn field_ok(s: Seq<char>, max: nat) -> bool {
    is_dec_digits(s) && dec_value(s) <= max
}

/// Split `s` at every occurrence of `d`.  As with string splitting, the
/// empty sequence yields one empty piece, and adjacent delimiters yield
/// empty pieces between them.
pub open spec fn split_on(s: Seq<char>, d: char) -> Seq<Seq<char>>
    decreases s.len(),
{
    if s.len() == 0 {
        seq![s]
    } else if s[0] == d {
        seq![Seq::<char>::empty()] + split_on(s.drop_first(), d)
    } else {
        let rest = split_on(s.drop_first(), d);
        seq![seq![s[0]] + rest[0]] + rest.drop_first()
    }
}

/// The non-empty elements of `parts`, in order.
pub open spec fn nonempty(parts: Seq<Seq<char>>) -> Seq<Seq<char>>
    decreases parts.len(),
{
    if parts.len() == 0 {
        Seq::empty()
    } else if parts[0].len() == 0 {
        nonempty(parts.drop_first())
    } else {
        seq![parts[0]] + nonempty(parts.drop_first())
    }
}

/// The node records of a text serialization: the pieces of `s` between `|`
/// delimiters, empty pieces discarded.
pub open spec fn segments(s: Seq<char>) -> Seq<Seq<char>> {
    nonempty(split_on(s, '|'))
}

/// The node described by one text segment, or `None` when the segment does
/// not hold exactly three comma-separated decimal fields whose values fit a
/// 16-bit variable and two 32-bit pointers.
pub open spec fn parse_node(seg: Seq<char>) -> Option<BddNode> {
    let fields = split_on(seg, ',');
    if fields.len() == 3 && field_ok(fields[0], u16::MAX as nat) && field_ok(
        fields[1],
        u32::MAX as nat,
    ) && field_ok(fields[2], u32::MAX as nat) {
        Some(
            BddNode {
                var: BddVariable(dec_value(fields[0]) as u16),
                low_link: BddPointer(dec_value(fields[1]) as u32),
                high_link: BddPointer(dec_value(fields[2]) as u32),
            },
        )
    } else {
        None
    }
}

/// Whether `s` is a well-formed text serialization: every segment between
/// delimiters parses as a node.
pub open spec fn text_ok(s: Seq<char>) -> bool {
    forall|i: int| 0 <= i < segments(s).len() ==> #[trigger] parse_node(segments(s)[i]) is Some
}

/// The node sequence described by a well-formed text serialization, in
/// segment order.
pub open spec fn text_decode(s: Seq<char>) -> Seq<BddNode> {
    segments(s).map_values(|seg: Seq<char>| parse_node(seg)->Some_0)
}

/// The text record of one node: three decimal fields, comma separated.
pub open spec fn node_text(n: BddNode) -> Seq<char> {
    dec_digits(n.var.0 as nat) + seq![','] + dec_digits(n.low_link.0 as nat) + seq![',']
        + dec_digits(n.high_link.0 as nat)
}

/// The text serialization after the opening delimiter: each node's record
/// followed by a closing delimiter.
pub open spec fn text_body(nodes: Seq<BddNode>) -> Seq<char>
    decreases nodes.len(),
{
    if nodes.len() == 0 {
        Seq::empty()
    } else {
        node_text(nodes[0]) + seq!['|'] + text_body(nodes.drop_first())
    }
}

/// The text serialization of a node sequence: an opening delimiter, then
/// each node's record followed by a delimiter.
pub open spec fn text_encode(nodes: Seq<BddNode>) -> Seq<char> {
    seq!['|'] + text_body(nodes)
}

/// The one-character string for a decimal digit.
fn digit_str(d: u8) -> (r: &'static str)
    requires
        d < 10,
    ensures
        r@ == seq![digit_char(d as nat)],
{
    proof {
        reveal_strlit("0");
        reveal_strlit("1");
        reveal_strlit("2");
        reveal_strlit("3");
        reveal_strlit("4");
        reveal_strlit("5");
        reveal_strlit("6");
        reveal_strlit("7");
        reveal_strlit("8");
        reveal_strlit("9");
    }
    match d {
        0 => "0",
        1 => "1",
        2 => "2",
        3 => "3",
        4 => "4",
        5 => "5",
        6 => "6",
        7 => "7",
        8 => "8",
        _ => "9",
    }
}

/// Decimal rendering of `v`, most significant digit first.
fn fmt_u64(v: u64) -> (r: String)
    ensures
        r@ == dec_digits(v as nat),
    decreases v,
{
    if v < 10 {
        digit_str(v as u8).to_owned()
    } else {
        proof {
            lemma_fundamental_div_mod(v as int, 10);
        }
        let mut s = fmt_u64(v / 10);
        s.append(digit_str((v % 10) as u8));
        s
    }
}

/// Splitting always yields at least one piece.
proof fn lemma_split_len(s: Seq<char>, d: char)
    ensures
        split_on(s, d).len() >= 1,
{
}

/// Splitting a sequence that holds no delimiter yields that sequence as the
/// single piece.
proof fn lemma_split_no_delim(s: Seq<char>, d: char)
    requires
        forall|i: int| 0 <= i < s.len() ==> s[i] != d,
    ensures
        split_on(s, d) == seq![s],
    decreases s.len(),
{
    if s.len() == 0 {
    } else {
        lemma_split_no_delim(s.drop_first(), d);
        assert(seq![s[0]] + s.drop_first() =~= s);
        assert(split_on(s, d) =~= seq![s]);
    }
}

/// Splitting distributes over concatenation at a delimiter.
proof fn lemma_split_concat(a: Seq<char>, b: Seq<char>, d: char)
    ensures
        split_on(a + seq![d] + b, d) == split_on(a, d) + split_on(b, d),
    decreases a.len(),
{
    let s = a + seq![d] + b;
    if a.len() == 0 {
        assert(s =~= seq![d] + b);
        assert(s[0] == d);
        assert(s.drop_first() =~= b);
        assert(split_on(a, d) == seq![a]);
        assert(a =~= Seq::<char>::empty());
        assert(split_on(s, d) =~= split_on(a, d) + split_on(b, d));
    } else {
        lemma_split_concat(a.drop_first(), b, d);
        assert(s[0] == a[0]);
        assert(s.drop_first() =~= a.drop_first() + seq![d] + b);
        lemma_split_len(a.drop_first(), d);
        lemma_split_len(b, d);
        let ra = split_on(a.drop_first(), d);
        if a[0] == d {
            assert(split_on(s, d) == seq![Seq::<char>::empty()] + (ra + split_on(b, d)));
            assert(split_on(a, d) == seq![Seq::<char>::empty()] + ra);
            assert(seq![Seq::<char>::empty()] + (ra + split_on(b, d)) =~= (seq![
                Seq::<char>::empty(),
            ] + ra) + split_on(b, d));
        } else {
            let rs = ra + split_on(b, d);
            assert(split_on(s, d) == seq![seq![a[0]] + rs[0]] + rs.drop_first());
            assert(rs[0] == ra[0]);
            assert(rs.drop_first() =~= ra.drop_first() + split_on(b, d));
            assert(split_on(a, d) == seq![seq![a[0]] + ra[0]] + ra.drop_first());
            assert(seq![seq![a[0]] + ra[0]] + (ra.drop_first() + split_on(b, d)) =~= (seq![
                seq![a[0]] + ra[0],
            ] + ra.drop_first()) + split_on(b, d));
        }
    }
}

/// Discarding empty pieces distributes over concatenation.
proof fn lemma_nonempty_concat(a: Seq<Seq<char>>, b: Seq<Seq<char>>)
    ensures
        nonempty(a + b) == nonempty(a) + nonempty(b),
    decreases a.len(),
{
    if a.len() == 0 {
        assert(a + b =~= b);
        assert(nonempty(a) + nonempty(b) =~= nonempty(b));
    } else {
        assert((a + b).drop_first() =~= a.drop_first() + b);
        assert((a + b)[0] == a[0]);
        lemma_nonempty_concat(a.drop_first(), b);
        if a[0].len() == 0 {
        } else {
            assert(seq![a[0]] + (nonempty(a.drop_first()) + nonempty(b)) =~= (seq![a[0]]
                + nonempty(a.drop_first())) + nonempty(b));
        }
    }
}

/// A prefix of a digit string never has a larger value than the whole.
proof fn lemma_dec_value_prefix(s: Seq<char>, k: int)
    requires
        0 <= k <= s.len(),
    ensures
        dec_value(s.take(k)) <= dec_value(s),
    decreases s.len(),
{
    if k == s.len() {
        assert(s.take(k) =~= s);
    } else {
        assert(s.take(k) =~= s.drop_last().take(k));
        lemma_dec_value_prefix(s.drop_last(), k);
    }
}

/// Split `s` at every occurrence of the delimiter `d`.
fn split_all(s: &str, d: char) -> (r: Vec<String>)
    ensures
        r@.map_values(|p: String| p@) == split_on(s@, d),
{
    let n = s.unicode_len();
    let mut r: Vec<String> = Vec::new();
    let mut start: usize = 0;
    let mut i: usize = 0;
    proof {
        assert(s@.subrange(0, n as int) =~= s@);
        assert(r@.map_values(|p: String| p@) + split_on(s@, d) =~= split_on(s@, d));
    }
    while i < n
        invariant
            start <= i <= n,
            n == s@.len(),
            split_on(s@, d) == r@.map_values(|p: String| p@) + split_on(
                s@.subrange(start as int, n as int),
                d,
            ),
            forall|j: int| start <= j < i ==> s@[j] != d,
        decreases n - i,
    {
        let c = s.get_char(i);
        if c == d {
            let piece = s.substring_char(start, i).to_owned();
            proof {
                let head = s@.subrange(start as int, i as int);
                let tail = s@.subrange(i + 1, n as int);
                assert(s@.subrange(start as int, n as int) =~= head + seq![d] + tail);
                lemma_split_concat(head, tail, d);
                lemma_split_no_delim(head, d);
                assert(r@.map_values(|p: String| p@).push(piece@) =~= r@.push(piece).map_values(
                    |p: String| p@,
                ));
                assert(r@.map_values(|p: String| p@).push(head) + split_on(tail, d) =~= r@
                    .map_values(|p: String| p@) + (seq![head] + split_on(tail, d)));
            }
            r.push(piece);
            start = i + 1;
        }
        i += 1;
    }
    let piece = s.substring_char(start, n).to_owned();
    proof {
        let last = s@.subrange(start as int, n as int);
        lemma_split_no_delim(last, d);
        assert(r@.map_values(|p: String| p@).push(piece@) =~= r@.push(piece).map_values(
            |p: String| p@,
        ));
        assert(r@.map_values(|p: String| p@).push(last) =~= r@.map_values(|p: String| p@) + seq![
            last,
        ]);
    }
    r.push(piece);
    r
}

/// Parse a decimal field: the field must be a non-empty string of digits
/// whose value does not exceed `max`.  The error message carries the parse
/// failure's description.
fn parse_bounded(s: &str, max: u64) -> (r: Result<u64, String>)
    requires
        max <= u32::MAX,
    ensures
        r is Ok <==> field_ok(s@, max as nat),
        r is Ok ==> r->Ok_0 == dec_value(s@),
{
    let n = s.unicode_len();
    if n == 0 {
        return Err("cannot parse integer from empty string".to_owned());
    }
    let mut acc: u64 = 0;
    let mut i: usize = 0;
    proof {
        assert(s@.take(0) =~= Seq::<char>::empty());
    }
    while i < n
        invariant
            i <= n,
            n == s@.len(),
            max <= u32::MAX,
            forall|j: int| 0 <= j < i ==> is_digit(#[trigger] s@[j]),
            acc == dec_value(s@.take(i as int)),
            acc <= max,
        decreases n - i,
    {
        let c = s.get_char(i);
        let cv = c as u32;
        if cv < 48 || cv > 57 {
            assert(!is_digit(s@[i as int]));
            return Err("invalid digit found in string".to_owned());
        }
        let d = (cv - 48) as u64;
        let acc2 = acc * 10 + d;
        proof {
            assert(s@.take(i + 1).drop_last() =~= s@.take(i as int));
            assert(s@.take(i + 1).last() == s@[i as int]);
            assert(acc2 == dec_value(s@.take(i + 1)));
        }
        if acc2 > max {
            proof {
                lemma_dec_value_prefix(s@, i + 1);
            }
            return Err("number too large to fit in target type".to_owned());
        }
        acc = acc2;
        i += 1;
    }
    proof {
        assert(s@.take(n as int) =~= s@);
    }
    Ok(acc)
}

/// Parse one `var,low,high` segment into a node.
fn parse_segment(seg: &str) -> (r: Result<BddNode, String>)
    ensures
        r is Ok <==> parse_node(seg@) is Some,
        r is Ok ==> Some(r->Ok_0) == parse_node(seg@),
{
    let fields = split_all(seg, ',');
    let ghost fs = split_on(seg@, ',');
    if fields.len() != 3 {
        return Err("expected a node record with exactly three fields".to_owned());
    }
    assert(fields[0]@ == fs[0] && fields[1]@ == fs[1] && fields[2]@ == fs[2]);
    let var = match parse_bounded(fields[0].as_str(), 65535) {
        Ok(v) => v,
        Err(e) => {
            return Err(e);
        },
    };
    let low = match parse_bounded(fields[1].as_str(), 4294967295) {
        Ok(v) => v,
        Err(e) => {
            return Err(e);
        },
    };
    let high = match parse_bounded(fields[2].as_str(), 4294967295) {
        Ok(v) => v,
        Err(e) => {
            return Err(e);
        },
    };
    Ok(BddNode::mk_node(BddVariable(var as u16), BddPointer(low as u32), BddPointer(high as u32)))
}

/// Appending one node to a sequence appends `var,low,high|` to the
/// sequence's text body.
proof fn lemma_text_body_push(nodes: Seq<BddNode>, n: BddNode)
    ensures
        text_body(nodes.push(n)) == text_body(nodes) + node_text(n) + seq!['|'],
    decreases nodes.len(),
{
    if nodes.len() == 0 {
        assert(nodes.push(n).drop_first() =~= nodes);
        assert(nodes.push(n)[0] == n);
        assert(text_body(nodes) == Seq::<char>::empty());
        assert(node_text(n) + seq!['|'] + text_body(nodes) =~= text_body(nodes) + node_text(n)
            + seq!['|']);
    } else {
        assert(nodes.push(n).drop_first() =~= nodes.drop_first().push(n));
        lemma_text_body_push(nodes.drop_first(), n);
        assert(nodes.push(n)[0] == nodes[0]);
        assert(text_body(nodes.push(n)) == node_text(nodes[0]) + seq!['|'] + (text_body(
            nodes.drop_first(),
        ) + node_text(n) + seq!['|']));
        assert(node_text(nodes[0]) + seq!['|'] + (text_body(nodes.drop_first()) + node_text(n)
            + seq!['|']) =~= (node_text(nodes[0]) + seq!['|'] + text_body(nodes.drop_first()))
            + node_text(n) + seq!['|']);
    }
}

/// The decimal digit characters are exactly the digits, and carry their
/// values.
proof fn lemma_digit_char(d: nat)
    requires
        d < 10,
    ensures
        is_digit(digit_char(d)),
        digit_val(digit_char(d)) == d,
{
}

/// A decimal rendering is a non-empty string of digits.
proof fn lemma_dec_digits_are_digits(n: nat)
    ensures
        dec_digits(n).len() >= 1,
        forall|i: int| 0 <= i < dec_digits(n).len() ==> is_digit(#[trigger] dec_digits(n)[i]),
    decreases n,
{
    if n < 10 {
        lemma_digit_char(n);
    } else {
        lemma_dec_digits_are_digits(n / 10);
        lemma_digit_char(n % 10);
        assert forall|i: int| 0 <= i < dec_digits(n).len() implies is_digit(
            #[trigger] dec_digits(n)[i],
        ) by {
            if i < dec_digits(n / 10).len() {
                assert(dec_digits(n)[i] == dec_digits(n / 10)[i]);
            } else {
                assert(dec_digits(n)[i] == digit_char(n % 10));
            }
        }
    }
}

/// Parsing a decimal rendering gives the rendered value back.
proof fn lemma_dec_round_trip(n: nat)
    ensures
        dec_value(dec_digits(n)) == n,
    decreases n,
{
    if n < 10 {
        lemma_digit_char(n);
        assert(dec_value(Seq::<char>::empty()) == 0);
        assert(dec_digits(n).drop_last() =~= Seq::<char>::empty());
        assert(dec_digits(n).last() == digit_char(n));
        assert(dec_value(dec_digits(n)) == 0 * 10 + digit_val(digit_char(n)));
    } else {
        lemma_dec_round_trip(n / 10);
        lemma_digit_char(n % 10);
        let s = dec_digits(n);
        assert(s.drop_last() =~= dec_digits(n / 10));
        assert(s.last() == digit_char(n % 10));
        assert(dec_value(s) == dec_value(dec_digits(n / 10)) * 10 + digit_val(digit_char(n % 10)));
        lemma_fundamental_div_mod(n as int, 10);
    }
}

/// A node's text record parses back to that node.
proof fn lemma_parse_node_text(n: BddNode)
    ensures
        node_text(n).len() > 0,
        forall|i: int| 0 <= i < node_text(n).len() ==> node_text(n)[i] != '|',
        parse_node(node_text(n)) == Some(n),
{
    let f0 = dec_digits(n.var.0 as nat);
    let f1 = dec_digits(n.low_link.0 as nat);
    let f2 = dec_digits(n.high_link.0 as nat);
    lemma_dec_digits_are_digits(n.var.0 as nat);
    lemma_dec_digits_are_digits(n.low_link.0 as nat);
    lemma_dec_digits_are_digits(n.high_link.0 as nat);
    lemma_dec_round_trip(n.var.0 as nat);
    lemma_dec_round_trip(n.low_link.0 as nat);
    lemma_dec_round_trip(n.high_link.0 as nat);
    assert(node_text(n) =~= f0 + seq![','] + (f1 + seq![','] + f2));
    lemma_split_concat(f0, f1 + seq![','] + f2, ',');
    lemma_split_concat(f1, f2, ',');
    lemma_split_no_delim(f0, ',');
    lemma_split_no_delim(f1, ',');
    lemma_split_no_delim(f2, ',');
    let fields = split_on(node_text(n), ',');
    assert(fields =~= seq![f0, f1, f2]);
    assert(parse_node(node_text(n)) == Some(n));
}

/// Discarding empty pieces keeps a sequence whose pieces are all
/// non-empty.
proof fn lemma_nonempty_all(parts: Seq<Seq<char>>)
    requires
        forall|i: int| 0 <= i < parts.len() ==> #[trigger] parts[i].len() > 0,
    ensures
        nonempty(parts) == parts,
    decreases parts.len(),
{
    if parts.len() == 0 {
        assert(nonempty(parts) =~= parts);
    } else {
        lemma_nonempty_all(parts.drop_first());
        assert(seq![parts[0]] + parts.drop_first() =~= parts);
    }
}

/// Splitting a text body at `|` yields each node's record, then one empty
/// piece from the closing delimiter.
proof fn lemma_text_body_split(nodes: Seq<BddNode>)
    ensures
        split_on(text_body(nodes), '|') == nodes.map_values(|n: BddNode| node_text(n)).push(
            Seq::<char>::empty(),
        ),
    decreases nodes.len(),
{
    if nodes.len() == 0 {
        assert(split_on(text_body(nodes), '|') =~= nodes.map_values(
            |n: BddNode| node_text(n),
        ).push(Seq::<char>::empty()));
    } else {
        lemma_text_body_split(nodes.drop_first());
        lemma_parse_node_text(nodes[0]);
        assert(text_body(nodes) =~= node_text(nodes[0]) + seq!['|'] + text_body(
            nodes.drop_first(),
        ));
        lemma_split_concat(node_text(nodes[0]), text_body(nodes.drop_first()), '|');
        lemma_split_no_delim(node_text(nodes[0]), '|');
        assert(split_on(text_body(nodes), '|') =~= nodes.map_values(|n: BddNode| node_text(n)).push(
            Seq::<char>::empty(),
        ));
    }
}

/// Round-trip law: a diagram's text serialization is well formed, and
/// decoding it reproduces the encoded node sequence exactly.
pub proof fn lemma_text_round_trip(nodes: Seq<BddNode>)
    ensures
        text_ok(text_encode(nodes)),
        text_decode(text_encode(nodes)) == nodes,
{
    let s = text_encode(nodes);
    let records = nodes.map_values(|n: BddNode| node_text(n));
    lemma_text_body_split(nodes);
    assert(s[0] == '|');
    assert(s.drop_first() =~= text_body(nodes));
    assert(split_on(s, '|') == seq![Seq::<char>::empty()] + records.push(Seq::<char>::empty()));
    assert(records.push(Seq::<char>::empty()) =~= records + seq![Seq::<char>::empty()]);
    assert(split_on(s, '|') =~= (seq![Seq::<char>::empty()] + records) + seq![
        Seq::<char>::empty(),
    ]);
    lemma_nonempty_concat(seq![Seq::<char>::empty()] + records, seq![Seq::<char>::empty()]);
    assert((seq![Seq::<char>::empty()] + records).drop_first() =~= records);
    assert(seq![Seq::<char>::empty()].drop_first() =~= Seq::<Seq<char>>::empty());
    assert(nonempty(Seq::<Seq<char>>::empty()) == Seq::<Seq<char>>::empty());
    assert(nonempty(seq![Seq::<char>::empty()]) =~= Seq::<Seq<char>>::empty());
    assert forall|i: int| 0 <= i < records.len() implies #[trigger] records[i].len() > 0 by {
        lemma_parse_node_text(nodes[i]);
    }
    lemma_nonempty_all(records);
    assert(nonempty((seq![Seq::<char>::empty()] + records)) == nonempty(records)) by {
        assert((seq![Seq::<char>::empty()] + records)[0].len() == 0);
        assert((seq![Seq::<char>::empty()] + records).drop_first() =~= records);
    }
    assert(segments(s) =~= records);
    assert forall|i: int| 0 <= i < segments(s).len() implies #[trigger] parse_node(
        segments(s)[i],
    ) is Some by {
        lemma_parse_node_text(nodes[i]);
    }
    assert forall|i: int| 0 <= i < nodes.len() implies #[trigger] parse_node(
        records[i],
    )->Some_0 == nodes[i] by {
        lemma_parse_node_text(nodes[i]);
    }
    assert(text_decode(s) =~= nodes);
}

impl Bdd {
    /// Read a diagram from its text serialization.  Fails exactly when some
    /// piece of the input between `|` delimiters is not three
    /// comma-separated decimal fields in range; the message describes the
    /// first failure.  On success the decoded node sequence is exactly the
    /// sequence the segments describe, in order.
    pub fn read_as_string(input: &str) -> (r: Result<Bdd, String>)
        ensures
            r is Ok <==> text_ok(input@),
            r is Ok ==> r->Ok_0@ == text_decode(input@),
    {
        let parts = split_all(input, '|');
        let ghost pv = parts@.map_values(|p: String| p@);
        let ghost segs = segments(input@);
        let m = parts.len();
        let mut result: Vec<BddNode> = Vec::new();
        let mut j: usize = 0;
        proof {
            assert(pv.take(0) =~= Seq::<Seq<char>>::empty());
        }
        while j < m
            invariant
                j <= m,
                m == parts.len(),
                pv == parts@.map_values(|p: String| p@),
                pv == split_on(input@, '|'),
                segs == segments(input@),
                forall|k: int|
                    0 <= k < nonempty(pv.take(j as int)).len() ==> #[trigger] parse_node(
                        nonempty(pv.take(j as int))[k],
                    ) is Some,
                result@ == nonempty(pv.take(j as int)).map_values(
                    |seg: Seq<char>| parse_node(seg)->Some_0,
                ),
            decreases m - j,
        {
            proof {
                assert(pv.take(j + 1) =~= pv.take(j as int).push(pv[j as int]));
                assert(pv.take(j as int).push(pv[j as int]) =~= pv.take(j as int) + seq![
                    pv[j as int],
                ]);
                lemma_nonempty_concat(pv.take(j as int), seq![pv[j as int]]);
            }
            proof {
                assert(nonempty(Seq::<Seq<char>>::empty()) == Seq::<Seq<char>>::empty());
                assert(seq![pv[j as int]].drop_first() =~= Seq::<Seq<char>>::empty());
            }
            if parts[j].as_str().is_empty() {
                proof {
                    assert(pv[j as int].len() == 0);
                    assert(nonempty(seq![pv[j as int]]) =~= Seq::<Seq<char>>::empty());
                    assert(nonempty(pv.take(j + 1)) =~= nonempty(pv.take(j as int)));
                }
            } else {
                proof {
                    assert(pv[j as int].len() > 0);
                    assert(nonempty(seq![pv[j as int]]) =~= seq![pv[j as int]]);
                    assert(nonempty(pv.take(j + 1)) =~= nonempty(pv.take(j as int)).push(
                        pv[j as int],
                    ));
                }
                match parse_segment(parts[j].as_str()) {
                    Ok(node) => {
                        result.push(node);
                        proof {
                            assert(result@ =~= nonempty(pv.take(j + 1)).map_values(
                                |seg: Seq<char>| parse_node(seg)->Some_0,
                            ));
                        }
                    },
                    Err(e) => {
                        proof {
                            let idx = nonempty(pv.take(j as int)).len() as int;
                            assert(pv =~= pv.take(j + 1) + pv.skip(j + 1));
                            lemma_nonempty_concat(pv.take(j + 1), pv.skip(j + 1));
                            assert(segs[idx] == pv[j as int]);
                            assert(!(parse_node(segs[idx]) is Some));
                        }
                        return Err(e);
                    },
                }
            }
            j += 1;
        }
        proof {
            assert(pv.take(m as int) =~= pv);
        }
        Ok(Bdd(result))
    }

    /// Read a diagram from a well-formed text serialization.  On a
    /// malformed string the underlying decoder's failure is unrecoverable
    /// at this layer, so well-formedness is required; callers that need
    /// recoverable handling use `read_as_string`.
    pub fn from_string(bdd: &str) -> (r: Bdd)
        requires
            text_ok(bdd@),
        ensures
            r@ == text_decode(bdd@),
    {
        match Bdd::read_as_string(bdd) {
            Ok(b) => b,
            Err(_) => unreached(),
        }
    }

    /// Append the text serialization of this diagram to `output`: an
    /// opening `|`, then each node as `var,low,high` followed by `|`.
    pub fn write_as_string(&self, output: &mut String)
        ensures
            final(output)@ == old(output)@ + text_encode(self@),
    {
        output.append("|");
        proof {
            reveal_strlit("|");
            assert(self@.take(0) =~= Seq::<BddNode>::empty());
            assert(output@ =~= old(output)@ + seq!['|'] + text_body(self@.take(0)));
        }
        let n = self.0.len();
        let mut i: usize = 0;
        while i < n
            invariant
                i <= n,
                n == self.0.len(),
                output@ == old(output)@ + seq!['|'] + text_body(self@.take(i as int)),
            decreases n - i,
        {
            let node = self.0[i];
            let vs = fmt_u64(node.var.0 as u64);
            output.append(vs.as_str());
            output.append(",");
            let ls = fmt_u64(node.low_link.0 as u64);
            output.append(ls.as_str());
            output.append(",");
            let hs = fmt_u64(node.high_link.0 as u64);
            output.append(hs.as_str());
            output.append("|");
            proof {
                reveal_strlit(",");
                reveal_strlit("|");
                lemma_text_body_push(self@.take(i as int), self@[i as int]);
                assert(self@.take(i + 1) =~= self@.take(i as int).push(self@[i as int]));
                assert(output@ =~= old(output)@ + seq!['|'] + text_body(self@.take(i + 1)));
            }
            i += 1;
        }
        proof {
            assert(self@.take(n as int) =~= self@);
            assert(old(output)@ + seq!['|'] + text_body(self@) =~= old(output)@ + text_encode(
                self@,
            ));
        }
    }

    /// Serialize this diagram into a fresh string.  Text encoding of an
    /// in-memory diagram has no failure mode.
    pub fn to_string(&self) -> (r: String)
        ensures
            r@ == text_encode(self@),
    {
        let mut buffer = String::new();
        self.write_as_string(&mut buffer);
        proof {
            assert(Seq::<char>::empty() + text_encode(self@) =~= text_encode(self@));
        }
        buffer
    }
}

} // verus!
