//! Persistence: a self-describing textual encoding of a whole
//! timeline, and its verified inverse.
//!
//! The document is line oriented and ASCII framed.  It opens with
//! `demy ` and the track count; each track contributes a header line
//! `track <name-length> <name> <node-count>` followed by one line
//! `node <time> <value> <interp>` per stored node, in time order.
//! Track names are length-prefixed (counted in characters), so any
//! name embeds verbatim without escaping.  Node values are the node's
//! 64-bit value pattern written as an unsigned decimal; the
//! interpolation tag is 0 for hold and 1 for linear.  The decoder
//! accepts exactly the canonical documents the encoder produces and
//! rejects everything else.

use vstd::prelude::*;
use vstd::string::StrSliceExecFns;
use vstd::string::StringExecFns;

use crate::errors::TimelineError;
use crate::node::InterpType;
use crate::text::str_eq;
use crate::node::Node;
use crate::timeline::Timeline;
use crate::track::strictly_ordered;
use crate::track::Track;

verus! {

/// The mathematical content of one track: its name and its nodes.
pub open spec fn track_model(t: Track) -> (Seq<char>, Seq<Node>) {
    (t.spec_name(), t.spec_nodes())
}

/// The mathematical content of a track list.
pub open spec fn track_models(ts: Seq<Track>) -> Seq<(Seq<char>, Seq<Node>)> {
    ts.map_values(|t: Track| track_model(t))
}

/// The mathematical content of a timeline, in storage order.
pub open spec fn timeline_model(tl: Timeline) -> Seq<(Seq<char>, Seq<Node>)> {
    track_models(tl.spec_tracks())
}

/// The character for one decimal digit.
pub open spec fn digit_char(d: nat) -> char {
    if d == 0 {
        '0'
    } else if d == 1 {
        '1'
    } else if d == 2 {
        '2'
    } else if d == 3 {
        '3'
    } else if d == 4 {
        '4'
    } else if d == 5 {
        '5'
    } else if d == 6 {
        '6'
    } else if d == 7 {
        '7'
    } else if d == 8 {
        '8'
    } else {
        '9'
    }
}

/// The canonical decimal rendering of a number: no sign, no leading
/// zero except for zero itself.
pub open spec fn spec_dec(n: nat) -> Seq<char>
    decreases n,
{
    if n < 10 {
        seq![digit_char(n)]
    } else {
        spec_dec(n / 10) + seq![digit_char(n % 10)]
    }
}

/// The keyword opening the whole document.
pub open spec fn kw_demy() -> Seq<char> {
    seq!['d', 'e', 'm', 'y', ' ']
}

/// The keyword opening a track header line.
pub open spec fn kw_track() -> Seq<char> {
    seq!['t', 'r', 'a', 'c', 'k', ' ']
}

/// The keyword opening a node line.
pub open spec fn kw_node() -> Seq<char> {
    seq!['n', 'o', 'd', 'e', ' ']
}

/// A single space, the in-line field separator.
pub open spec fn sp() -> Seq<char> {
    seq![' ']
}

/// A single newline, the line terminator.
pub open spec fn nl() -> Seq<char> {
    seq!['\n']
}

/// The line encoding one node.
pub open spec fn enc_node(n: Node) -> Seq<char> {
    kw_node() + spec_dec(n.time as nat) + sp() + spec_dec(n.value as nat) + sp() + spec_dec(
        n.interp.spec_tag() as nat,
    ) + nl()
}

/// The concatenated lines of a node list.
pub open spec fn enc_nodes(nodes: Seq<Node>) -> Seq<char>
    decreases nodes.len(),
{
    if nodes.len() == 0 {
        Seq::empty()
    } else {
        enc_node(nodes[0]) + enc_nodes(nodes.drop_first())
    }
}

/// The encoding of one track: its header line, then its node lines.
pub open spec fn enc_track(m: (Seq<char>, Seq<Node>)) -> Seq<char> {
    kw_track() + spec_dec(m.0.len()) + sp() + m.0 + sp() + spec_dec(m.1.len()) + nl() + enc_nodes(
        m.1,
    )
}

/// The concatenated encodings of a track list.
pub open spec fn enc_tracks(m: Seq<(Seq<char>, Seq<Node>)>) -> Seq<char>
    decreases m.len(),
{
    if m.len() == 0 {
        Seq::empty()
    } else {
        enc_track(m[0]) + enc_tracks(m.drop_first())
    }
}

/// The encoding of a whole timeline: the opening line with the track
/// count, then each track in storage order.
pub open spec fn enc_timeline(m: Seq<(Seq<char>, Seq<Node>)>) -> Seq<char> {
    kw_demy() + spec_dec(m.len()) + nl() + enc_tracks(m)
}

/// Appending one entry to a node list appends its line to the
/// encoding.
pub proof fn lemma_enc_nodes_push(nodes: Seq<Node>, n: Node)
    ensures
        enc_nodes(nodes.push(n)) == enc_nodes(nodes) + enc_node(n),
    decreases nodes.len(),
{
    if nodes.len() == 0 {
        let p = nodes.push(n);
        assert(p[0] == n);
        assert(p.drop_first() =~= Seq::<Node>::empty());
        assert(enc_nodes(p.drop_first()) == Seq::<char>::empty());
        assert(enc_nodes(p) == enc_node(n) + Seq::<char>::empty());
        assert(enc_node(n) + Seq::<char>::empty() =~= enc_node(n));
        assert(enc_nodes(nodes) + enc_node(n) =~= enc_node(n));
    } else {
        assert(nodes.push(n).drop_first() =~= nodes.drop_first().push(n));
        assert(nodes.push(n)[0] == nodes[0]);
        lemma_enc_nodes_push(nodes.drop_first(), n);
        assert(enc_nodes(nodes.push(n)) == enc_node(nodes[0]) + (enc_nodes(nodes.drop_first())
            + enc_node(n)));
        assert(enc_node(nodes[0]) + (enc_nodes(nodes.drop_first()) + enc_node(n)) =~= (enc_node(
            nodes[0],
        ) + enc_nodes(nodes.drop_first())) + enc_node(n));
    }
}

/// Appending one entry to a track list appends its encoding to the
/// encoding.
pub proof fn lemma_enc_tracks_push(m: Seq<(Seq<char>, Seq<Node>)>, t: (Seq<char>, Seq<Node>))
    ensures
        enc_tracks(m.push(t)) == enc_tracks(m) + enc_track(t),
    decreases m.len(),
{
    if m.len() == 0 {
        let p = m.push(t);
        assert(p[0] == t);
        assert(p.drop_first() =~= Seq::<(Seq<char>, Seq<Node>)>::empty());
        assert(enc_tracks(p.drop_first()) == Seq::<char>::empty());
        assert(enc_tracks(p) == enc_track(t) + Seq::<char>::empty());
        assert(enc_track(t) + Seq::<char>::empty() =~= enc_track(t));
        assert(enc_tracks(m) + enc_track(t) =~= enc_track(t));
    } else {
        assert(m.push(t).drop_first() =~= m.drop_first().push(t));
        assert(m.push(t)[0] == m[0]);
        lemma_enc_tracks_push(m.drop_first(), t);
        assert(enc_tracks(m.push(t)) == enc_track(m[0]) + (enc_tracks(m.drop_first()) + enc_track(
            t,
        )));
        assert(enc_track(m[0]) + (enc_tracks(m.drop_first()) + enc_track(t)) =~= (enc_track(m[0])
            + enc_tracks(m.drop_first())) + enc_track(t));
    }
}

/// Is `c` a decimal digit?
pub open spec fn is_digit(c: char) -> bool {
    c == '0' || c == '1' || c == '2' || c == '3' || c == '4' || c == '5' || c == '6' || c == '7'
        || c == '8' || c == '9'
}

/// The numeric value of a digit character.
pub open spec fn digit_val(c: char) -> nat {
    if c == '0' {
        0
    } else if c == '1' {
        1
    } else if c == '2' {
        2
    } else if c == '3' {
        3
    } else if c == '4' {
        4
    } else if c == '5' {
        5
    } else if c == '6' {
        6
    } else if c == '7' {
        7
    } else if c == '8' {
        8
    } else {
        9
    }
}

/// How many consecutive digit characters stand at `pos`.
pub open spec fn digit_run_len(s: Seq<char>, pos: int) -> int
    decreases s.len() - pos,
{
    if 0 <= pos && pos < s.len() && is_digit(s[pos]) {
        1 + digit_run_len(s, pos + 1)
    } else {
        0
    }
}

/// The value of the `k` digit characters starting at `pos`.
pub open spec fn run_val(s: Seq<char>, pos: int, k: int) -> nat
    decreases k,
{
    if k <= 0 {
        0
    } else {
        run_val(s, pos, k - 1) * 10 + digit_val(s[pos + k - 1])
    }
}

/// Parses a canonical decimal number at `pos`: a non-empty digit run
/// without a redundant leading zero, whose value does not exceed
/// `max`.  Returns the value and the position after the run.
pub open spec fn sp_num(s: Seq<char>, pos: int, max: nat) -> Option<(nat, int)> {
    let k = digit_run_len(s, pos);
    if k == 0 {
        None
    } else if k > 1 && s[pos] == '0' {
        None
    } else if run_val(s, pos, k) > max {
        None
    } else {
        Some((run_val(s, pos, k), pos + k))
    }
}

/// Consumes the exact characters of `lit` at `pos`.
pub open spec fn sp_lit(s: Seq<char>, pos: int, lit: Seq<char>) -> Option<int> {
    if 0 <= pos && pos + lit.len() <= s.len() && s.subrange(pos, pos + lit.len()) == lit {
        Some(pos + lit.len())
    } else {
        None
    }
}

/// If exactly the first `m` characters at `pos` are digits, the digit
/// run has length `m`.
pub proof fn lemma_digit_run_is(s: Seq<char>, pos: int, m: int)
    requires
        0 <= pos,
        0 <= m,
        pos + m <= s.len(),
        forall|j: int| pos <= j < pos + m ==> is_digit(#[trigger] s[j]),
        pos + m == s.len() || !is_digit(s[pos + m]),
    ensures
        digit_run_len(s, pos) == m,
    decreases m,
{
    if m > 0 {
        lemma_digit_run_is(s, pos + 1, m - 1);
    }
}

/// A digit run is never negative.
pub proof fn lemma_digit_run_nonneg(s: Seq<char>, pos: int)
    ensures
        digit_run_len(s, pos) >= 0,
    decreases s.len() - pos,
{
    if 0 <= pos && pos < s.len() && is_digit(s[pos]) {
        lemma_digit_run_nonneg(s, pos + 1);
    }
}

/// A digit run is at least as long as any all-digit prefix.
pub proof fn lemma_digit_run_at_least(s: Seq<char>, pos: int, m: int)
    requires
        0 <= pos,
        0 <= m,
        pos + m <= s.len(),
        forall|j: int| pos <= j < pos + m ==> is_digit(#[trigger] s[j]),
    ensures
        digit_run_len(s, pos) >= m,
    decreases m,
{
    if m > 0 {
        assert(is_digit(s[pos]));
        lemma_digit_run_at_least(s, pos + 1, m - 1);
        assert(digit_run_len(s, pos) == 1 + digit_run_len(s, pos + 1));
    } else {
        lemma_digit_run_nonneg(s, pos);
    }
}

/// A longer digit run never has a smaller value.
pub proof fn lemma_run_val_monotone(s: Seq<char>, pos: int, k1: int, k2: int)
    requires
        0 <= k1 <= k2,
    ensures
        run_val(s, pos, k1) <= run_val(s, pos, k2),
    decreases k2,
{
    if k2 > k1 {
        lemma_run_val_monotone(s, pos, k1, k2 - 1);
        assert(run_val(s, pos, k2) == run_val(s, pos, k2 - 1) * 10 + digit_val(s[pos + k2 - 1]));
        assert(run_val(s, pos, k2 - 1) * 10 >= run_val(s, pos, k2 - 1)) by (nonlinear_arith);
    }
}

/// Parses one node line.
pub open spec fn sp_node(s: Seq<char>, pos: int) -> Option<(Node, int)> {
    match sp_lit(s, pos, kw_node()) {
        None => None,
        Some(p1) => match sp_num(s, p1, u32::MAX as nat) {
            None => None,
            Some((time, p2)) => match sp_lit(s, p2, sp()) {
                None => None,
                Some(p3) => match sp_num(s, p3, u64::MAX as nat) {
                    None => None,
                    Some((value, p4)) => match sp_lit(s, p4, sp()) {
                        None => None,
                        Some(p5) => match sp_num(s, p5, 1) {
                            None => None,
                            Some((tag, p6)) => match sp_lit(s, p6, nl()) {
                                None => None,
                                Some(p7) => match InterpType::spec_from_tag(tag as u64) {
                                    None => None,
                                    Some(interp) => Some(
                                        (
                                            Node {
                                                time: time as u32,
                                                value: value as u64,
                                                interp,
                                            },
                                            p7,
                                        ),
                                    ),
                                },
                            },
                        },
                    },
                },
            },
        },
    }
}

/// Parses exactly `count` node lines.
pub open spec fn sp_nodes(s: Seq<char>, pos: int, count: nat) -> Option<(Seq<Node>, int)>
    decreases count,
{
    if count == 0 {
        Some((Seq::empty(), pos))
    } else {
        match sp_node(s, pos) {
            None => None,
            Some((n, p1)) => match sp_nodes(s, p1, (count - 1) as nat) {
                None => None,
                Some((rest, p2)) => Some((seq![n] + rest, p2)),
            },
        }
    }
}

/// Parses one track: its header line, then its announced number of
/// node lines.  The node list must carry the track invariants — at
/// least the zero node, strictly increasing times — or the document
/// is rejected.
pub open spec fn sp_track(s: Seq<char>, pos: int) -> Option<((Seq<char>, Seq<Node>), int)> {
    match sp_lit(s, pos, kw_track()) {
        None => None,
        Some(p1) => match sp_num(s, p1, usize::MAX as nat) {
            None => None,
            Some((namelen, p2)) => match sp_lit(s, p2, sp()) {
                None => None,
                Some(p3) => if p3 + namelen <= s.len() {
                    let name = s.subrange(p3, p3 + namelen);
                    match sp_lit(s, p3 + namelen, sp()) {
                        None => None,
                        Some(p5) => match sp_num(s, p5, usize::MAX as nat) {
                            None => None,
                            Some((count, p6)) => match sp_lit(s, p6, nl()) {
                                None => None,
                                Some(p7) => match sp_nodes(s, p7, count) {
                                    None => None,
                                    Some((nodes, p8)) => if nodes.len() >= 1 && nodes[0].time == 0
                                        && strictly_ordered(nodes) {
                                        Some(((name, nodes), p8))
                                    } else {
                                        None
                                    },
                                },
                            },
                        },
                    }
                } else {
                    None
                },
            },
        },
    }
}

/// Parses exactly `count` tracks.
pub open spec fn sp_tracks(s: Seq<char>, pos: int, count: nat) -> Option<
    (Seq<(Seq<char>, Seq<Node>)>, int),
>
    decreases count,
{
    if count == 0 {
        Some((Seq::empty(), pos))
    } else {
        match sp_track(s, pos) {
            None => None,
            Some((t, p1)) => match sp_tracks(s, p1, (count - 1) as nat) {
                None => None,
                Some((rest, p2)) => Some((seq![t] + rest, p2)),
            },
        }
    }
}

/// Do the entries of a track list carry pairwise distinct names?
pub open spec fn unique_names(m: Seq<(Seq<char>, Seq<Node>)>) -> bool {
    forall|i: int, j: int|
        0 <= i < j < m.len() ==> (#[trigger] m[i]).0 != (#[trigger] m[j]).0
}

/// Parses a whole document: the opening line, the announced number of
/// tracks, nothing after them, and no repeated track name.  This is
/// the decoder's exact acceptance condition: a text decodes to a
/// timeline if and only if this function yields its content.
pub open spec fn sp_timeline(s: Seq<char>) -> Option<Seq<(Seq<char>, Seq<Node>)>> {
    match sp_lit(s, 0, kw_demy()) {
        None => None,
        Some(p1) => match sp_num(s, p1, usize::MAX as nat) {
            None => None,
            Some((count, p2)) => match sp_lit(s, p2, nl()) {
                None => None,
                Some(p3) => match sp_tracks(s, p3, count) {
                    None => None,
                    Some((m, p4)) => if p4 == s.len() && unique_names(m) {
                        Some(m)
                    } else {
                        None
                    },
                },
            },
        },
    }
}

/// Every rendered number is a non-empty digit string without a
/// redundant leading zero.
pub proof fn lemma_spec_dec_props(n: nat)
    ensures
        spec_dec(n).len() >= 1,
        forall|j: int| 0 <= j < spec_dec(n).len() ==> is_digit(#[trigger] spec_dec(n)[j]),
        n >= 1 ==> spec_dec(n)[0] != '0',
        n < 10 ==> spec_dec(n) == seq![digit_char(n)],
    decreases n,
{
    if n < 10 {
        assert(is_digit(digit_char(n)));
    } else {
        lemma_spec_dec_props(n / 10);
        assert(spec_dec(n) == spec_dec(n / 10) + seq![digit_char(n % 10)]);
        assert(is_digit(digit_char(n % 10)));
        assert forall|j: int| 0 <= j < spec_dec(n).len() implies is_digit(
            #[trigger] spec_dec(n)[j],
        ) by {
            if j < spec_dec(n / 10).len() {
                assert(spec_dec(n)[j] == spec_dec(n / 10)[j]);
            } else {
                assert(spec_dec(n)[j] == digit_char(n % 10));
            }
        }
        assert(spec_dec(n)[0] == spec_dec(n / 10)[0]);
    }
}

/// Reading back the digits of a rendered number recovers it.
pub proof fn lemma_run_val_of_dec(s: Seq<char>, pos: int, n: nat)
    requires
        0 <= pos,
        pos + spec_dec(n).len() <= s.len(),
        s.subrange(pos, pos + spec_dec(n).len()) == spec_dec(n),
    ensures
        run_val(s, pos, spec_dec(n).len() as int) == n,
    decreases n,
{
    let x = spec_dec(n);
    let l = x.len() as int;
    if n < 10 {
        lemma_spec_dec_props(n);
        assert(s[pos] == s.subrange(pos, pos + 1)[0]);
        assert(run_val(s, pos, 0) == 0);
        assert(run_val(s, pos, 1) == run_val(s, pos, 0) * 10 + digit_val(s[pos]));
        assert(digit_val(digit_char(n)) == n);
    } else {
        let prefix = spec_dec(n / 10);
        let lp = prefix.len() as int;
        assert(x == prefix + seq![digit_char(n % 10)]);
        assert(l == lp + 1);
        assert(s.subrange(pos, pos + lp) =~= prefix) by {
            assert forall|j: int| 0 <= j < lp implies s.subrange(pos, pos + lp)[j] == prefix[j] by {
                assert(s.subrange(pos, pos + lp)[j] == s[pos + j]);
                assert(s[pos + j] == s.subrange(pos, pos + l)[j]);
                assert(x[j] == prefix[j]);
            }
        }
        lemma_run_val_of_dec(s, pos, n / 10);
        assert(s[pos + l - 1] == s.subrange(pos, pos + l)[l - 1]);
        assert(x[l - 1] == digit_char(n % 10));
        assert(digit_val(digit_char(n % 10)) == n % 10);
        assert(run_val(s, pos, l) == run_val(s, pos, l - 1) * 10 + digit_val(s[pos + l - 1]));
        assert(n / 10 * 10 + n % 10 == n);
    }
}

/// A rendered number bounded by `max` parses back to itself whenever
/// the character after it (if any) is not a digit.
pub proof fn lemma_sp_num_of_dec(s: Seq<char>, pos: int, n: nat, max: nat)
    requires
        0 <= pos,
        n <= max,
        pos + spec_dec(n).len() <= s.len(),
        s.subrange(pos, pos + spec_dec(n).len()) == spec_dec(n),
        pos + spec_dec(n).len() == s.len() || !is_digit(s[pos + spec_dec(n).len()]),
    ensures
        sp_num(s, pos, max) == Some((n, pos + spec_dec(n).len())),
{
    let x = spec_dec(n);
    let l = x.len() as int;
    lemma_spec_dec_props(n);
    assert forall|j: int| pos <= j < pos + l implies is_digit(#[trigger] s[j]) by {
        assert(s[j] == s.subrange(pos, pos + l)[j - pos]);
    }
    lemma_digit_run_is(s, pos, l);
    if l > 1 {
        assert(n >= 1) by {
            if n < 10 {
                assert(x.len() == 1);
            }
        }
        assert(s[pos] == s.subrange(pos, pos + l)[0]);
        assert(s[pos] != '0');
    }
    lemma_run_val_of_dec(s, pos, n);
}

/// A digit character is the character of its own value.
pub proof fn lemma_digit_char_of_val(c: char)
    requires
        is_digit(c),
    ensures
        digit_char(digit_val(c)) == c,
        digit_val(c) < 10,
{
}

/// What a digit run looks like: digits up to its length, and no digit
/// right after it.
pub proof fn lemma_digit_run_facts(s: Seq<char>, pos: int)
    requires
        0 <= pos <= s.len(),
    ensures
        0 <= digit_run_len(s, pos),
        pos + digit_run_len(s, pos) <= s.len(),
        forall|j: int| pos <= j < pos + digit_run_len(s, pos) ==> is_digit(#[trigger] s[j]),
        pos + digit_run_len(s, pos) == s.len() || !is_digit(s[pos + digit_run_len(s, pos)]),
    decreases s.len() - pos,
{
    if pos < s.len() && is_digit(s[pos]) {
        lemma_digit_run_facts(s, pos + 1);
    }
}

/// A run whose first digit is not zero has a positive value.
pub proof fn lemma_run_val_positive(s: Seq<char>, pos: int, k: int)
    requires
        k >= 1,
        is_digit(s[pos]),
        s[pos] != '0',
    ensures
        run_val(s, pos, k) >= 1,
{
    assert(run_val(s, pos, 1) == run_val(s, pos, 0) * 10 + digit_val(s[pos]));
    assert(digit_val(s[pos]) >= 1);
    lemma_run_val_monotone(s, pos, 1, k);
}

/// The digits of a run render back to the run itself: a canonical
/// digit string is the decimal rendering of its own value.
pub proof fn lemma_dec_of_run(s: Seq<char>, pos: int, k: int)
    requires
        0 <= pos,
        1 <= k,
        pos + k <= s.len(),
        forall|j: int| pos <= j < pos + k ==> is_digit(#[trigger] s[j]),
        !(k > 1 && s[pos] == '0'),
    ensures
        spec_dec(run_val(s, pos, k)) == s.subrange(pos, pos + k),
    decreases k,
{
    if k == 1 {
        assert(run_val(s, pos, 1) == run_val(s, pos, 0) * 10 + digit_val(s[pos]));
        lemma_digit_char_of_val(s[pos]);
        assert(spec_dec(digit_val(s[pos])) == seq![s[pos]]);
        assert(seq![s[pos]] =~= s.subrange(pos, pos + 1));
    } else {
        let v0 = run_val(s, pos, k - 1);
        let d = digit_val(s[pos + k - 1]);
        lemma_dec_of_run(s, pos, k - 1);
        lemma_run_val_positive(s, pos, k - 1);
        lemma_digit_char_of_val(s[pos + k - 1]);
        let v = run_val(s, pos, k);
        assert(v == v0 * 10 + d);
        assert(v >= 10) by {
            assert(v0 >= 1);
            assert(v0 * 10 >= 10) by (nonlinear_arith)
                requires
                    v0 >= 1,
            ;
        }
        assert(v / 10 == v0 && v % 10 == d) by {
            assert(v == 10 * v0 + d);
            assert(0 <= d < 10);
        }
        assert(spec_dec(v) == spec_dec(v0) + seq![digit_char(d)]);
        assert(s.subrange(pos, pos + k) =~= s.subrange(pos, pos + k - 1) + seq![s[pos + k - 1]]);
    }
}

/// What a successful number parse says of the text: the consumed
/// region is exactly the canonical rendering of the value.
pub proof fn lemma_sp_num_sound(s: Seq<char>, pos: int, max: nat, v: nat, p: int)
    requires
        sp_num(s, pos, max) == Some((v, p)),
    ensures
        0 <= pos < p <= s.len(),
        v <= max,
        s.subrange(pos, p) == spec_dec(v),
        p - pos == spec_dec(v).len(),
{
    let k = digit_run_len(s, pos);
    assert(0 <= pos) by {
        if pos < 0 {
            assert(digit_run_len(s, pos) == 0);
        }
    }
    assert(pos <= s.len()) by {
        if pos > s.len() {
            assert(digit_run_len(s, pos) == 0);
        }
    }
    lemma_digit_run_facts(s, pos);
    lemma_dec_of_run(s, pos, k);
}

/// A region of `s` known to equal `x` matches `x` on every
/// sub-region.
pub proof fn lemma_subrange_at(s: Seq<char>, pos: int, x: Seq<char>, a: int, b: int)
    requires
        0 <= pos,
        pos + x.len() <= s.len(),
        s.subrange(pos, pos + x.len()) == x,
        0 <= a <= b <= x.len(),
    ensures
        s.subrange(pos + a, pos + b) == x.subrange(a, b),
{
    assert(s.subrange(pos + a, pos + b) =~= x.subrange(a, b)) by {
        assert forall|j: int| 0 <= j < b - a implies s.subrange(pos + a, pos + b)[j] == x.subrange(
            a,
            b,
        )[j] by {
            assert(s.subrange(pos + a, pos + b)[j] == s[pos + a + j]);
            assert(s[pos + a + j] == s.subrange(pos, pos + x.len())[a + j]);
        }
    }
}

/// A region of `s` known to equal `x` matches `x` at every position.
pub proof fn lemma_char_at(s: Seq<char>, pos: int, x: Seq<char>, c: int)
    requires
        0 <= pos,
        pos + x.len() <= s.len(),
        s.subrange(pos, pos + x.len()) == x,
        0 <= c < x.len(),
    ensures
        s[pos + c] == x[c],
{
    assert(x[c] == s.subrange(pos, pos + x.len())[c]);
}

/// What a successful node parse says of the text: the consumed region
/// is exactly the line encoding the returned node.
pub proof fn lemma_sp_node_sound(s: Seq<char>, pos: int, node: Node, p: int)
    requires
        sp_node(s, pos) == Some((node, p)),
    ensures
        0 <= pos < p <= s.len(),
        p - pos == enc_node(node).len(),
        s.subrange(pos, p) == enc_node(node),
{
    match sp_lit(s, pos, kw_node()) {
        None => {},
        Some(p1) => match sp_num(s, p1, u32::MAX as nat) {
            None => {},
            Some((time, p2)) => match sp_lit(s, p2, sp()) {
                None => {},
                Some(p3) => match sp_num(s, p3, u64::MAX as nat) {
                    None => {},
                    Some((value, p4)) => match sp_lit(s, p4, sp()) {
                        None => {},
                        Some(p5) => match sp_num(s, p5, 1) {
                            None => {},
                            Some((tag, p6)) => match sp_lit(s, p6, nl()) {
                                None => {},
                                Some(p7) => {
                                    lemma_sp_num_sound(s, p1, u32::MAX as nat, time, p2);
                                    lemma_sp_num_sound(s, p3, u64::MAX as nat, value, p4);
                                    lemma_sp_num_sound(s, p5, 1, tag, p6);
                                    assert(node.time as nat == time);
                                    assert(node.value as nat == value);
                                    assert(node.interp.spec_tag() as nat == tag);
                                    let x = enc_node(node);
                                    let dt = spec_dec(time);
                                    let dv = spec_dec(value);
                                    let dg = spec_dec(tag);
                                    assert(x == kw_node() + dt + sp() + dv + sp() + dg + nl());
                                    assert(p1 == pos + 5);
                                    assert(p3 == p2 + 1);
                                    assert(p5 == p4 + 1);
                                    assert(p7 == p6 + 1);
                                    assert(p == p7);
                                    assert(x.len() == p - pos);
                                    assert(s.subrange(pos, p) =~= x) by {
                                        assert forall|j: int| 0 <= j < p - pos implies s.subrange(
                                            pos,
                                            p,
                                        )[j] == x[j] by {
                                            assert(s.subrange(pos, p)[j] == s[pos + j]);
                                            if j < 5 {
                                                lemma_char_at(s, pos, kw_node(), j);
                                            } else if pos + j < p2 {
                                                lemma_char_at(s, p1, dt, pos + j - p1);
                                            } else if pos + j == p2 {
                                                lemma_char_at(s, p2, sp(), 0);
                                            } else if pos + j < p4 {
                                                lemma_char_at(s, p3, dv, pos + j - p3);
                                            } else if pos + j == p4 {
                                                lemma_char_at(s, p4, sp(), 0);
                                            } else if pos + j < p6 {
                                                lemma_char_at(s, p5, dg, pos + j - p5);
                                            } else {
                                                lemma_char_at(s, p6, nl(), 0);
                                            }
                                        }
                                    }
                                },
                            },
                        },
                    },
                },
            },
        },
    }
}

/// What a successful node-list parse says of the text: the consumed
/// region is exactly the encoding of the returned list, whose length
/// is the announced count.
pub proof fn lemma_sp_nodes_sound(s: Seq<char>, pos: int, count: nat, nodes: Seq<Node>, p: int)
    requires
        0 <= pos <= s.len(),
        sp_nodes(s, pos, count) == Some((nodes, p)),
    ensures
        nodes.len() == count,
        pos <= p <= s.len(),
        p - pos == enc_nodes(nodes).len(),
        s.subrange(pos, p) == enc_nodes(nodes),
    decreases count,
{
    if count == 0 {
        assert(s.subrange(pos, pos) =~= Seq::<char>::empty());
    } else {
        match sp_node(s, pos) {
            None => {},
            Some((n0, p1)) => match sp_nodes(s, p1, (count - 1) as nat) {
                None => {},
                Some((rest, p2)) => {
                    lemma_sp_node_sound(s, pos, n0, p1);
                    lemma_sp_nodes_sound(s, p1, (count - 1) as nat, rest, p2);
                    assert(nodes == seq![n0] + rest);
                    assert(nodes[0] == n0);
                    assert(nodes.drop_first() =~= rest);
                    assert(enc_nodes(nodes) == enc_node(n0) + enc_nodes(rest));
                    assert(s.subrange(pos, p) =~= s.subrange(pos, p1) + s.subrange(p1, p2)) by {
                        assert forall|j: int| 0 <= j < p - pos implies s.subrange(pos, p)[j] == (
                        s.subrange(pos, p1) + s.subrange(p1, p2))[j] by {
                            assert(s.subrange(pos, p)[j] == s[pos + j]);
                            if j < p1 - pos {
                                assert(s.subrange(pos, p1)[j] == s[pos + j]);
                            } else {
                                assert(s.subrange(p1, p2)[j - (p1 - pos)] == s[pos + j]);
                            }
                        }
                    }
                },
            },
        }
    }
}

/// What a successful track parse says of the text: the consumed
/// region is exactly the encoding of the returned model, which
/// carries the track invariants and machine-sized counts.
pub proof fn lemma_sp_track_sound(s: Seq<char>, pos: int, m: (Seq<char>, Seq<Node>), p: int)
    requires
        sp_track(s, pos) == Some((m, p)),
    ensures
        0 <= pos < p <= s.len(),
        p - pos == enc_track(m).len(),
        s.subrange(pos, p) == enc_track(m),
        m.0.len() <= usize::MAX,
        m.1.len() <= usize::MAX,
        m.1.len() >= 1,
        m.1[0].time == 0,
        strictly_ordered(m.1),
{
    match sp_lit(s, pos, kw_track()) {
        None => {},
        Some(p1) => match sp_num(s, p1, usize::MAX as nat) {
            None => {},
            Some((namelen, p2)) => match sp_lit(s, p2, sp()) {
                None => {},
                Some(p3) => {
                    if p3 + namelen <= s.len() {
                        let p4 = p3 + namelen;
                        match sp_lit(s, p4, sp()) {
                            None => {},
                            Some(p5) => match sp_num(s, p5, usize::MAX as nat) {
                                None => {},
                                Some((count, p6)) => match sp_lit(s, p6, nl()) {
                                    None => {},
                                    Some(p7) => match sp_nodes(s, p7, count) {
                                        None => {},
                                        Some((nodes, p8)) => {
                                            lemma_sp_num_sound(
                                                s,
                                                p1,
                                                usize::MAX as nat,
                                                namelen,
                                                p2,
                                            );
                                            lemma_sp_num_sound(
                                                s,
                                                p5,
                                                usize::MAX as nat,
                                                count,
                                                p6,
                                            );
                                            lemma_sp_nodes_sound(s, p7, count, nodes, p8);
                                            assert(m.0 == s.subrange(p3, p4));
                                            assert(m.0.len() == namelen);
                                            assert(m.1 == nodes);
                                            let x = enc_track(m);
                                            let dn = spec_dec(namelen);
                                            let dc = spec_dec(count);
                                            let en = enc_nodes(nodes);
                                            assert(x == kw_track() + dn + sp() + m.0 + sp() + dc
                                                + nl() + en);
                                            assert(p1 == pos + 6);
                                            assert(p3 == p2 + 1);
                                            assert(p5 == p4 + 1);
                                            assert(p7 == p6 + 1);
                                            assert(p == p8);
                                            assert(x.len() == p - pos);
                                            assert(s.subrange(p3, p4) == m.0);
                                            assert(s.subrange(pos, p) =~= x) by {
                                                assert forall|j: int|
                                                    0 <= j < p - pos implies s.subrange(pos, p)[j]
                                                    == x[j] by {
                                                    assert(s.subrange(pos, p)[j] == s[pos + j]);
                                                    if j < 6 {
                                                        lemma_char_at(s, pos, kw_track(), j);
                                                    } else if pos + j < p2 {
                                                        lemma_char_at(s, p1, dn, pos + j - p1);
                                                    } else if pos + j == p2 {
                                                        lemma_char_at(s, p2, sp(), 0);
                                                    } else if pos + j < p4 {
                                                        lemma_char_at(s, p3, m.0, pos + j - p3);
                                                    } else if pos + j == p4 {
                                                        lemma_char_at(s, p4, sp(), 0);
                                                    } else if pos + j < p6 {
                                                        lemma_char_at(s, p5, dc, pos + j - p5);
                                                    } else if pos + j == p6 {
                                                        lemma_char_at(s, p6, nl(), 0);
                                                    } else {
                                                        lemma_char_at(s, p7, en, pos + j - p7);
                                                    }
                                                }
                                            }
                                        },
                                    },
                                },
                            },
                        }
                    }
                },
            },
        },
    }
}

/// What a successful track-list parse says of the text: the consumed
/// region is exactly the encoding of the returned models, each of
/// which carries the track invariants.
pub proof fn lemma_sp_tracks_sound(
    s: Seq<char>,
    pos: int,
    count: nat,
    m: Seq<(Seq<char>, Seq<Node>)>,
    p: int,
)
    requires
        0 <= pos <= s.len(),
        sp_tracks(s, pos, count) == Some((m, p)),
    ensures
        m.len() == count,
        pos <= p <= s.len(),
        p - pos == enc_tracks(m).len(),
        s.subrange(pos, p) == enc_tracks(m),
        forall|i: int|
            0 <= i < m.len() ==> {
                &&& (#[trigger] m[i]).0.len() <= usize::MAX
                &&& m[i].1.len() <= usize::MAX
                &&& m[i].1.len() >= 1
                &&& m[i].1[0].time == 0
                &&& strictly_ordered(m[i].1)
            },
    decreases count,
{
    if count == 0 {
        assert(s.subrange(pos, pos) =~= Seq::<char>::empty());
    } else {
        match sp_track(s, pos) {
            None => {},
            Some((t0, p1)) => match sp_tracks(s, p1, (count - 1) as nat) {
                None => {},
                Some((rest, p2)) => {
                    lemma_sp_track_sound(s, pos, t0, p1);
                    lemma_sp_tracks_sound(s, p1, (count - 1) as nat, rest, p2);
                    assert(m == seq![t0] + rest);
                    assert(m[0] == t0);
                    assert(m.drop_first() =~= rest);
                    assert(enc_tracks(m) == enc_track(t0) + enc_tracks(rest));
                    assert forall|i: int| 0 <= i < m.len() implies {
                        &&& (#[trigger] m[i]).0.len() <= usize::MAX
                        &&& m[i].1.len() <= usize::MAX
                        &&& m[i].1.len() >= 1
                        &&& m[i].1[0].time == 0
                        &&& strictly_ordered(m[i].1)
                    } by {
                        if i > 0 {
                            assert(m[i] == rest[i - 1]);
                        }
                    }
                    assert(s.subrange(pos, p) =~= s.subrange(pos, p1) + s.subrange(p1, p2)) by {
                        assert forall|j: int| 0 <= j < p - pos implies s.subrange(pos, p)[j] == (
                        s.subrange(pos, p1) + s.subrange(p1, p2))[j] by {
                            assert(s.subrange(pos, p)[j] == s[pos + j]);
                            if j < p1 - pos {
                                assert(s.subrange(pos, p1)[j] == s[pos + j]);
                            } else {
                                assert(s.subrange(p1, p2)[j - (p1 - pos)] == s[pos + j]);
                            }
                        }
                    }
                },
            },
        }
    }
}

/// The decoder is exact: a text it accepts is the canonical encoding
/// of the content it returns, and that content is realizable.  With
/// the round-trip theorem this pins the decoder's acceptance down
/// completely: it takes the encoder's documents and nothing else.
pub proof fn lemma_load_is_canonical(s: Seq<char>, m: Seq<(Seq<char>, Seq<Node>)>)
    requires
        sp_timeline(s) == Some(m),
    ensures
        wf_model(m),
        s == enc_timeline(m),
{
    match sp_lit(s, 0, kw_demy()) {
        None => {},
        Some(p1) => match sp_num(s, p1, usize::MAX as nat) {
            None => {},
            Some((count, p2)) => match sp_lit(s, p2, nl()) {
                None => {},
                Some(p3) => match sp_tracks(s, p3, count) {
                    None => {},
                    Some((m0, p4)) => {
                        lemma_sp_num_sound(s, p1, usize::MAX as nat, count, p2);
                        lemma_sp_tracks_sound(s, p3, count, m0, p4);
                        assert(m == m0);
                        assert(p4 == s.len());
                        assert(unique_names(m));
                        let x = enc_timeline(m);
                        let dc = spec_dec(count);
                        assert(x == kw_demy() + dc + nl() + enc_tracks(m));
                        assert(p1 == 5);
                        assert(p3 == p2 + 1);
                        assert(x.len() == s.len());
                        assert(s =~= x) by {
                            assert forall|j: int| 0 <= j < s.len() implies s[j] == x[j] by {
                                if j < 5 {
                                    lemma_char_at(s, 0, kw_demy(), j);
                                } else if j < p2 {
                                    lemma_char_at(s, p1, dc, j - p1);
                                } else if j == p2 {
                                    lemma_char_at(s, p2, nl(), 0);
                                } else {
                                    lemma_char_at(s, p3, enc_tracks(m), j - p3);
                                }
                            }
                        }
                    },
                },
            },
        },
    }
}

/// A time chain between every adjacent pair orders the whole list.
proof fn lemma_chain_ordered(nodes: Seq<Node>, i: int, j: int)
    requires
        forall|k: int| 1 <= k < nodes.len() ==> (#[trigger] nodes[k].time) > nodes[k - 1].time,
        0 <= i < j < nodes.len(),
    ensures
        nodes[i].time < nodes[j].time,
    decreases j - i,
{
    if j > i + 1 {
        lemma_chain_ordered(nodes, i, j - 1);
    }
}

/// A rendered node line parses back to the node it came from.
pub proof fn lemma_sp_node_of_enc(s: Seq<char>, pos: int, node: Node)
    requires
        0 <= pos,
        pos + enc_node(node).len() <= s.len(),
        s.subrange(pos, pos + enc_node(node).len()) == enc_node(node),
    ensures
        sp_node(s, pos) == Some((node, pos + enc_node(node).len())),
{
    let x = enc_node(node);
    let dt = spec_dec(node.time as nat);
    let dv = spec_dec(node.value as nat);
    let dg = spec_dec(node.interp.spec_tag() as nat);
    let o1 = 5int;
    let o2 = o1 + dt.len();
    let o3 = o2 + 1;
    let o4 = o3 + dv.len();
    let o5 = o4 + 1;
    let o6 = o5 + dg.len();
    let l = o6 + 1;
    assert(x == kw_node() + dt + sp() + dv + sp() + dg + nl());
    assert(x.len() == l);
    assert(x.subrange(0, o1) =~= kw_node()) by {
        assert forall|j: int| 0 <= j < 5 implies x.subrange(0, o1)[j] == kw_node()[j] by {
            assert(x[j] == kw_node()[j]);
        }
    }
    lemma_subrange_at(s, pos, x, 0, o1);
    assert(x.subrange(o1, o2) =~= dt) by {
        assert forall|j: int| 0 <= j < dt.len() implies x.subrange(o1, o2)[j] == dt[j] by {
            assert(x[o1 + j] == dt[j]);
        }
    }
    lemma_subrange_at(s, pos, x, o1, o2);
    assert(x[o2] == ' ');
    lemma_char_at(s, pos, x, o2);
    assert(!is_digit(s[pos + o2]));
    lemma_sp_num_of_dec(s, pos + o1, node.time as nat, u32::MAX as nat);
    assert(x.subrange(o2, o3) =~= sp()) by {
        assert(x[o2] == ' ');
    }
    lemma_subrange_at(s, pos, x, o2, o3);
    assert(x.subrange(o3, o4) =~= dv) by {
        assert forall|j: int| 0 <= j < dv.len() implies x.subrange(o3, o4)[j] == dv[j] by {
            assert(x[o3 + j] == dv[j]);
        }
    }
    lemma_subrange_at(s, pos, x, o3, o4);
    assert(x[o4] == ' ');
    lemma_char_at(s, pos, x, o4);
    assert(!is_digit(s[pos + o4]));
    lemma_sp_num_of_dec(s, pos + o3, node.value as nat, u64::MAX as nat);
    assert(x.subrange(o4, o5) =~= sp()) by {
        assert(x[o4] == ' ');
    }
    lemma_subrange_at(s, pos, x, o4, o5);
    assert(x.subrange(o5, o6) =~= dg) by {
        assert forall|j: int| 0 <= j < dg.len() implies x.subrange(o5, o6)[j] == dg[j] by {
            assert(x[o5 + j] == dg[j]);
        }
    }
    lemma_subrange_at(s, pos, x, o5, o6);
    assert(x[o6] == '\n');
    lemma_char_at(s, pos, x, o6);
    assert(!is_digit(s[pos + o6]));
    assert(node.interp.spec_tag() <= 1);
    lemma_sp_num_of_dec(s, pos + o5, node.interp.spec_tag() as nat, 1);
    assert(x.subrange(o6, l) =~= nl()) by {
        assert(x[o6] == '\n');
    }
    lemma_subrange_at(s, pos, x, o6, l);
    assert(InterpType::spec_from_tag(node.interp.spec_tag()) == Some(node.interp));
    assert(sp_node(s, pos) == Some((node, pos + l)));
}

/// A rendered node list parses back to itself.
pub proof fn lemma_sp_nodes_of_enc(s: Seq<char>, pos: int, nodes: Seq<Node>)
    requires
        0 <= pos,
        pos + enc_nodes(nodes).len() <= s.len(),
        s.subrange(pos, pos + enc_nodes(nodes).len()) == enc_nodes(nodes),
    ensures
        sp_nodes(s, pos, nodes.len()) == Some((nodes, pos + enc_nodes(nodes).len())),
    decreases nodes.len(),
{
    let x = enc_nodes(nodes);
    if nodes.len() == 0 {
        assert(nodes =~= Seq::<Node>::empty());
    } else {
        let head = enc_node(nodes[0]);
        let tail = enc_nodes(nodes.drop_first());
        let lh = head.len() as int;
        assert(x == head + tail);
        assert(x.subrange(0, lh) =~= head) by {
            assert forall|j: int| 0 <= j < lh implies x.subrange(0, lh)[j] == head[j] by {
                assert(x[j] == head[j]);
            }
        }
        lemma_subrange_at(s, pos, x, 0, lh);
        lemma_sp_node_of_enc(s, pos, nodes[0]);
        assert(x.subrange(lh, x.len() as int) =~= tail) by {
            assert forall|j: int| 0 <= j < tail.len() implies x.subrange(lh, x.len() as int)[j]
                == tail[j] by {
                assert(x[lh + j] == tail[j]);
            }
        }
        lemma_subrange_at(s, pos, x, lh, x.len() as int);
        lemma_sp_nodes_of_enc(s, pos + lh, nodes.drop_first());
        assert(seq![nodes[0]] + nodes.drop_first() =~= nodes);
        assert(sp_nodes(s, pos, nodes.len()) == Some((nodes, pos + x.len())));
    }
}

/// A rendered track parses back to its model, provided its node list
/// carries the track invariants and its sizes fit the machine.
pub proof fn lemma_sp_track_of_enc(s: Seq<char>, pos: int, m: (Seq<char>, Seq<Node>))
    requires
        0 <= pos,
        pos + enc_track(m).len() <= s.len(),
        s.subrange(pos, pos + enc_track(m).len()) == enc_track(m),
        m.0.len() <= usize::MAX,
        m.1.len() <= usize::MAX,
        m.1.len() >= 1,
        m.1[0].time == 0,
        strictly_ordered(m.1),
    ensures
        sp_track(s, pos) == Some((m, pos + enc_track(m).len())),
{
    let x = enc_track(m);
    let dn = spec_dec(m.0.len());
    let dc = spec_dec(m.1.len());
    let en = enc_nodes(m.1);
    let o1 = 6int;
    let o2 = o1 + dn.len();
    let o3 = o2 + 1;
    let o4 = o3 + m.0.len();
    let o5 = o4 + 1;
    let o6 = o5 + dc.len();
    let o7 = o6 + 1;
    let l = o7 + en.len();
    assert(x == kw_track() + dn + sp() + m.0 + sp() + dc + nl() + en);
    assert(x.len() == l);
    assert(x.subrange(0, o1) =~= kw_track()) by {
        assert forall|j: int| 0 <= j < 6 implies x.subrange(0, o1)[j] == kw_track()[j] by {
            assert(x[j] == kw_track()[j]);
        }
    }
    lemma_subrange_at(s, pos, x, 0, o1);
    assert(x.subrange(o1, o2) =~= dn) by {
        assert forall|j: int| 0 <= j < dn.len() implies x.subrange(o1, o2)[j] == dn[j] by {
            assert(x[o1 + j] == dn[j]);
        }
    }
    lemma_subrange_at(s, pos, x, o1, o2);
    assert(x[o2] == ' ');
    lemma_char_at(s, pos, x, o2);
    assert(!is_digit(s[pos + o2]));
    lemma_sp_num_of_dec(s, pos + o1, m.0.len(), usize::MAX as nat);
    assert(x.subrange(o2, o3) =~= sp()) by {
        assert(x[o2] == ' ');
    }
    lemma_subrange_at(s, pos, x, o2, o3);
    assert(x.subrange(o3, o4) =~= m.0) by {
        assert forall|j: int| 0 <= j < m.0.len() implies x.subrange(o3, o4)[j] == m.0[j] by {
            assert(x[o3 + j] == m.0[j]);
        }
    }
    lemma_subrange_at(s, pos, x, o3, o4);
    assert(x[o4] == ' ');
    lemma_char_at(s, pos, x, o4);
    assert(x.subrange(o4, o5) =~= sp()) by {
        assert(x[o4] == ' ');
    }
    lemma_subrange_at(s, pos, x, o4, o5);
    assert(x.subrange(o5, o6) =~= dc) by {
        assert forall|j: int| 0 <= j < dc.len() implies x.subrange(o5, o6)[j] == dc[j] by {
            assert(x[o5 + j] == dc[j]);
        }
    }
    lemma_subrange_at(s, pos, x, o5, o6);
    assert(x[o6] == '\n');
    lemma_char_at(s, pos, x, o6);
    assert(!is_digit(s[pos + o6]));
    lemma_sp_num_of_dec(s, pos + o5, m.1.len(), usize::MAX as nat);
    assert(x.subrange(o6, o7) =~= nl()) by {
        assert(x[o6] == '\n');
    }
    lemma_subrange_at(s, pos, x, o6, o7);
    assert(x.subrange(o7, l) =~= en) by {
        assert forall|j: int| 0 <= j < en.len() implies x.subrange(o7, l)[j] == en[j] by {
            assert(x[o7 + j] == en[j]);
        }
    }
    lemma_subrange_at(s, pos, x, o7, l);
    lemma_sp_nodes_of_enc(s, pos + o7, m.1);
    assert(sp_track(s, pos) == Some((m, pos + l)));
}

/// A rendered track list parses back to itself, entry by entry.
pub proof fn lemma_sp_tracks_of_enc(s: Seq<char>, pos: int, m: Seq<(Seq<char>, Seq<Node>)>)
    requires
        0 <= pos,
        pos + enc_tracks(m).len() <= s.len(),
        s.subrange(pos, pos + enc_tracks(m).len()) == enc_tracks(m),
        forall|i: int|
            0 <= i < m.len() ==> {
                &&& (#[trigger] m[i]).0.len() <= usize::MAX
                &&& m[i].1.len() <= usize::MAX
                &&& m[i].1.len() >= 1
                &&& m[i].1[0].time == 0
                &&& strictly_ordered(m[i].1)
            },
    ensures
        sp_tracks(s, pos, m.len()) == Some((m, pos + enc_tracks(m).len())),
    decreases m.len(),
{
    let x = enc_tracks(m);
    if m.len() == 0 {
        assert(m =~= Seq::<(Seq<char>, Seq<Node>)>::empty());
    } else {
        let head = enc_track(m[0]);
        let tail = enc_tracks(m.drop_first());
        let lh = head.len() as int;
        assert(x == head + tail);
        assert(x.subrange(0, lh) =~= head) by {
            assert forall|j: int| 0 <= j < lh implies x.subrange(0, lh)[j] == head[j] by {
                assert(x[j] == head[j]);
            }
        }
        lemma_subrange_at(s, pos, x, 0, lh);
        lemma_sp_track_of_enc(s, pos, m[0]);
        assert(x.subrange(lh, x.len() as int) =~= tail) by {
            assert forall|j: int| 0 <= j < tail.len() implies x.subrange(lh, x.len() as int)[j]
                == tail[j] by {
                assert(x[lh + j] == tail[j]);
            }
        }
        lemma_subrange_at(s, pos, x, lh, x.len() as int);
        assert(forall|i: int|
            0 <= i < m.drop_first().len() ==> #[trigger] m.drop_first()[i] == m[i + 1]);
        lemma_sp_tracks_of_enc(s, pos + lh, m.drop_first());
        assert(seq![m[0]] + m.drop_first() =~= m);
        assert(sp_tracks(s, pos, m.len()) == Some((m, pos + x.len())));
    }
}

/// Is this timeline content realizable: uniquely named tracks, each
/// with the track invariants, and every count within the machine's
/// sizes?
pub open spec fn wf_model(m: Seq<(Seq<char>, Seq<Node>)>) -> bool {
    &&& m.len() <= usize::MAX
    &&& unique_names(m)
    &&& forall|i: int|
        0 <= i < m.len() ==> {
            &&& (#[trigger] m[i]).0.len() <= usize::MAX
            &&& m[i].1.len() <= usize::MAX
            &&& m[i].1.len() >= 1
            &&& m[i].1[0].time == 0
            &&& strictly_ordered(m[i].1)
        }
}

/// The round trip: rendering any realizable timeline content and
/// parsing the text back yields exactly that content — every track
/// name, and every node's time, value and interpolation, in order.
/// Together with the contracts of `Timeline::save` and
/// `Timeline::load`, this says that `load` applied to `save`'s output
/// reproduces the saved timeline.
pub proof fn lemma_save_load_round_trip(m: Seq<(Seq<char>, Seq<Node>)>)
    requires
        wf_model(m),
    ensures
        sp_timeline(enc_timeline(m)) == Some(m),
{
    let s = enc_timeline(m);
    let dc = spec_dec(m.len());
    let et = enc_tracks(m);
    let o1 = 5int;
    let o2 = o1 + dc.len();
    let o3 = o2 + 1;
    let l = o3 + et.len();
    assert(s == kw_demy() + dc + nl() + et);
    assert(s.len() == l);
    assert(s.subrange(0, l) =~= s);
    assert(s.subrange(0, o1) =~= kw_demy()) by {
        assert forall|j: int| 0 <= j < 5 implies s.subrange(0, o1)[j] == kw_demy()[j] by {
            assert(s[j] == kw_demy()[j]);
        }
    }
    assert(s.subrange(o1, o2) =~= dc) by {
        assert forall|j: int| 0 <= j < dc.len() implies s.subrange(o1, o2)[j] == dc[j] by {
            assert(s[o1 + j] == dc[j]);
        }
    }
    assert(s[o2] == '\n');
    assert(!is_digit(s[o2]));
    lemma_sp_num_of_dec(s, o1, m.len(), usize::MAX as nat);
    assert(s.subrange(o2, o3) =~= nl()) by {
        assert(s[o2] == '\n');
    }
    assert(s.subrange(o3, l) =~= et) by {
        assert forall|j: int| 0 <= j < et.len() implies s.subrange(o3, l)[j] == et[j] by {
            assert(s[o3 + j] == et[j]);
        }
    }
    lemma_sp_tracks_of_enc(s, o3, m);
    assert(sp_timeline(s) == Some(m));
}

/// Classifies one character, returning its digit value if it has one.
fn p_digit(c: char) -> (r: Option<u64>)
    ensures
        is_digit(c) ==> r == Some(digit_val(c) as u64),
        !is_digit(c) ==> r is None,
{
    if c == '0' {
        Some(0)
    } else if c == '1' {
        Some(1)
    } else if c == '2' {
        Some(2)
    } else if c == '3' {
        Some(3)
    } else if c == '4' {
        Some(4)
    } else if c == '5' {
        Some(5)
    } else if c == '6' {
        Some(6)
    } else if c == '7' {
        Some(7)
    } else if c == '8' {
        Some(8)
    } else if c == '9' {
        Some(9)
    } else {
        None
    }
}

/// Parses a canonical decimal number bounded by `max` at `pos`.
fn p_num(s: &str, n: usize, pos: usize, max: u64) -> (r: Option<(u64, usize)>)
    requires
        n == s@.len(),
        pos <= n,
    ensures
        match r {
            Some((v, p)) => {
                &&& sp_num(s@, pos as int, max as nat) == Some((v as nat, p as int))
                &&& pos < p <= n
            },
            None => sp_num(s@, pos as int, max as nat) is None,
        },
{
    if pos >= n {
        return None;
    }
    let c0 = s.get_char(pos);
    let d0 = match p_digit(c0) {
        Some(d) => d,
        None => {
            return None;
        },
    };
    if d0 == 0 {
        // a canonical zero is a single digit
        if pos + 1 < n {
            let c1 = s.get_char(pos + 1);
            if p_digit(c1).is_some() {
                proof {
                    lemma_digit_run_at_least(s@, pos as int, 2);
                }
                return None;
            }
        }
        proof {
            lemma_digit_run_is(s@, pos as int, 1);
            assert(run_val(s@, pos as int, 0) == 0);
            assert(run_val(s@, pos as int, 1) == run_val(s@, pos as int, 0) * 10 + digit_val(
                s@[pos as int],
            ));
        }
        return Some((0, pos + 1));
    }
    proof {
        assert(run_val(s@, pos as int, 0) == 0);
        assert(run_val(s@, pos as int, 1) == run_val(s@, pos as int, 0) * 10 + digit_val(
            s@[pos as int],
        ));
    }
    if d0 > max {
        proof {
            lemma_digit_run_at_least(s@, pos as int, 1);
            lemma_run_val_monotone(s@, pos as int, 1, digit_run_len(s@, pos as int));
        }
        return None;
    }
    let mut val: u64 = d0;
    let mut p: usize = pos + 1;
    loop
        invariant
            n == s@.len(),
            pos < p <= n,
            is_digit(s@[pos as int]),
            forall|j: int| pos <= j < p ==> is_digit(#[trigger] s@[j]),
            val == run_val(s@, pos as int, p - pos),
            val <= max,
        ensures
            n == s@.len(),
            pos < p <= n,
            forall|j: int| pos <= j < p ==> is_digit(#[trigger] s@[j]),
            p == n || !is_digit(s@[p as int]),
            val == run_val(s@, pos as int, p - pos),
            val <= max,
            is_digit(s@[pos as int]),
        decreases n - p,
    {
        if p >= n {
            break ;
        }
        let c = s.get_char(p);
        let d = match p_digit(c) {
            Some(d) => d,
            None => {
                break ;
            },
        };
        if val > max / 10 || (val == max / 10 && d > max % 10) {
            proof {
                lemma_digit_run_at_least(s@, pos as int, p - pos + 1);
                let k = digit_run_len(s@, pos as int);
                assert(run_val(s@, pos as int, p - pos + 1) == val * 10 + digit_val(s@[p as int]));
                assert(val * 10 + d > max) by {
                    assert(max == 10 * (max / 10) + max % 10);
                    if val > max / 10 {
                        assert(val >= max / 10 + 1);
                        assert(val * 10 >= (max / 10 + 1) * 10) by (nonlinear_arith)
                            requires
                                val >= max / 10 + 1,
                        ;
                        assert((max / 10 + 1) * 10 == (max / 10) * 10 + 10);
                    }
                }
                lemma_run_val_monotone(s@, pos as int, p - pos + 1, k);
                assert(run_val(s@, pos as int, k) > max);
            }
            return None;
        }
        proof {
            assert(val * 10 + d <= max) by {
                assert(max == 10 * (max / 10) + max % 10);
                assert(val <= max / 10);
                if val < max / 10 {
                    assert(val * 10 <= (max / 10 - 1) * 10) by (nonlinear_arith)
                        requires
                            val <= max / 10 - 1,
                    ;
                }
            }
            assert(run_val(s@, pos as int, p - pos + 1) == val * 10 + digit_val(s@[p as int]));
        }
        val = val * 10 + d;
        p = p + 1;
    }
    proof {
        lemma_digit_run_is(s@, pos as int, p - pos);
        assert(s@[pos as int] != '0') by {
            assert(digit_val(s@[pos as int]) == d0);
        }
        assert(sp_num(s@, pos as int, max as nat) == Some((val as nat, p as int)));
    }
    Some((val, p))
}

/// Consumes the exact characters of `lit` at `pos`.
fn p_lit(s: &str, n: usize, pos: usize, lit: &str) -> (r: Option<usize>)
    requires
        n == s@.len(),
        pos <= n,
    ensures
        match r {
            Some(p) => sp_lit(s@, pos as int, lit@) == Some(p as int) && pos <= p <= n,
            None => sp_lit(s@, pos as int, lit@) is None,
        },
{
    let litn = lit.unicode_len();
    if n - pos < litn {
        return None;
    }
    let mut i: usize = 0;
    while i < litn
        invariant
            n == s@.len(),
            litn == lit@.len(),
            pos + litn <= n,
            i <= litn,
            forall|j: int| 0 <= j < i ==> s@[pos + j] == lit@[j],
        decreases litn - i,
    {
        if s.get_char(pos + i) != lit.get_char(i) {
            proof {
                let sub = s@.subrange(pos as int, pos + litn);
                assert(sub[i as int] != lit@[i as int]);
            }
            return None;
        }
        i += 1;
    }
    proof {
        assert(s@.subrange(pos as int, pos + litn) =~= lit@);
    }
    Some(pos + litn)
}

/// Returns the one-character string for a digit.
fn digit_str(d: u64) -> (s: &'static str)
    requires
        d < 10,
    ensures
        s@ == seq![digit_char(d as nat)],
{
    proof {
        reveal_strlit("0");
        reveal_strlit("1");
        reveal_strlit("2");
        reveal_strlit("3");
        reveal_strlit("4");
        reveal_strlit("5");
        reveal_strlit("6");
        reveal_strlit("7");
        reveal_strlit("8");
        reveal_strlit("9");
    }
    if d == 0 {
        "0"
    } else if d == 1 {
        "1"
    } else if d == 2 {
        "2"
    } else if d == 3 {
        "3"
    } else if d == 4 {
        "4"
    } else if d == 5 {
        "5"
    } else if d == 6 {
        "6"
    } else if d == 7 {
        "7"
    } else if d == 8 {
        "8"
    } else {
        "9"
    }
}

/// Appends the canonical decimal rendering of `n`.
fn push_dec(out: &mut String, n: u64)
    ensures
        final(out)@ == old(out)@ + spec_dec(n as nat),
{
    if n < 10 {
        out.append(digit_str(n));
        return ;
    }
    let mut digits: Vec<u64> = Vec::new();
    let mut m = n;
    while m > 0
        invariant
            m <= n,
            m > 0 ==> spec_dec(n as nat) == spec_dec(m as nat) + digits@.reverse().map_values(
                |d: u64| digit_char(d as nat),
            ),
            m == 0 ==> digits@.len() >= 1 && spec_dec(n as nat) == digits@.reverse().map_values(
                |d: u64| digit_char(d as nat),
            ),
            forall|j: int| 0 <= j < digits@.len() ==> digits@[j] < 10,
        decreases m,
    {
        let d = m % 10;
        let ghost mprev = m;
        let ghost predigits = digits@;
        digits.push(d);
        m = m / 10;
        proof {
            let f = |d: u64| digit_char(d as nat);
            assert(mprev == m * 10 + d);
            assert(digits@.reverse() =~= seq![d].add(predigits.reverse()));
            assert(digits@.reverse().map_values(f) =~= seq![digit_char(d as nat)].add(
                predigits.reverse().map_values(f),
            ));
            if m > 0 {
                assert(spec_dec(mprev as nat) == spec_dec(m as nat) + seq![
                    digit_char(d as nat),
                ]) by {
                    assert(mprev as nat >= 10);
                    assert(mprev as nat / 10 == m as nat);
                    assert(mprev as nat % 10 == d as nat);
                }
                assert(spec_dec(n as nat) == (spec_dec(m as nat) + seq![digit_char(d as nat)])
                    + predigits.reverse().map_values(f));
                assert((spec_dec(m as nat) + seq![digit_char(d as nat)]) + predigits.reverse(
                ).map_values(f) =~= spec_dec(m as nat) + (seq![digit_char(d as nat)]
                    + predigits.reverse().map_values(f)));
            } else {
                assert(mprev == d);
                assert(spec_dec(n as nat) == spec_dec(d as nat) + predigits.reverse().map_values(
                    f,
                ));
                assert(spec_dec(d as nat) == seq![digit_char(d as nat)]);
            }
        }
    }
    let mut i: usize = digits.len();
    while i > 0
        invariant
            i <= digits@.len(),
            out@ == old(out)@ + digits@.reverse().map_values(
                |d: u64| digit_char(d as nat),
            ).take(digits@.len() - i),
            spec_dec(n as nat) == digits@.reverse().map_values(|d: u64| digit_char(d as nat)),
            forall|j: int| 0 <= j < digits@.len() ==> digits@[j] < 10,
        decreases i,
    {
        i = i - 1;
        let ghost f = |d: u64| digit_char(d as nat);
        let ghost rev = digits@.reverse().map_values(f);
        out.append(digit_str(digits[i]));
        proof {
            let k = digits@.len() - 1 - i;
            assert(rev[k] == digit_char(digits@[i as int] as nat));
            assert(rev.take(k + 1) =~= rev.take(k).push(rev[k]));
            assert(out@ =~= old(out)@ + rev.take(k + 1));
        }
    }
    proof {
        let f = |d: u64| digit_char(d as nat);
        let rev = digits@.reverse().map_values(f);
        assert(rev.take(digits@.len() as int) =~= rev);
    }
}

/// Appends the line encoding one node.
fn enc_node_into(out: &mut String, n: &Node)
    ensures
        final(out)@ == old(out)@ + enc_node(*n),
{
    proof {
        reveal_strlit("node ");
        reveal_strlit(" ");
        reveal_strlit("\n");
        assert("node "@ =~= kw_node());
        assert(" "@ =~= sp());
        assert("\n"@ =~= nl());
    }
    out.append("node ");
    push_dec(out, n.get_time() as u64);
    out.append(" ");
    push_dec(out, n.get_value());
    out.append(" ");
    push_dec(out, n.get_interpolator().tag());
    out.append("\n");
    proof {
        assert(out@ =~= old(out)@ + enc_node(*n));
    }
}

/// Appends the encoding of one track.
fn enc_track_into(out: &mut String, t: &Track)
    ensures
        final(out)@ == old(out)@ + enc_track(track_model(*t)),
{
    proof {
        reveal_strlit("track ");
        reveal_strlit(" ");
        reveal_strlit("\n");
        assert("track "@ =~= kw_track());
        assert(" "@ =~= sp());
        assert("\n"@ =~= nl());
    }
    let name = t.get_name();
    out.append("track ");
    push_dec(out, name.unicode_len() as u64);
    out.append(" ");
    out.append(name);
    out.append(" ");
    let nodes = t.nodes();
    push_dec(out, nodes.len() as u64);
    out.append("\n");
    let ghost header = kw_track() + spec_dec(t.spec_name().len()) + sp() + t.spec_name() + sp()
        + spec_dec(t.spec_nodes().len()) + nl();
    proof {
        assert(out@ =~= old(out)@ + header);
    }
    let mut i: usize = 0;
    while i < nodes.len()
        invariant
            i <= nodes@.len(),
            nodes@ == t.spec_nodes(),
            out@ == old(out)@ + header + enc_nodes(t.spec_nodes().take(i as int)),
        decreases nodes.len() - i,
    {
        enc_node_into(out, &nodes[i]);
        proof {
            assert(t.spec_nodes().take(i + 1) =~= t.spec_nodes().take(i as int).push(
                t.spec_nodes()[i as int],
            ));
            lemma_enc_nodes_push(t.spec_nodes().take(i as int), t.spec_nodes()[i as int]);
            assert(out@ =~= old(out)@ + header + enc_nodes(t.spec_nodes().take(i + 1)));
        }
        i += 1;
    }
    proof {
        assert(t.spec_nodes().take(t.spec_nodes().len() as int) =~= t.spec_nodes());
        assert(out@ =~= old(out)@ + enc_track(track_model(*t)));
    }
}

/// Parses one node line.
fn p_node(s: &str, n: usize, pos: usize) -> (r: Option<(Node, usize)>)
    requires
        n == s@.len(),
        pos <= n,
    ensures
        match r {
            Some(t) => sp_node(s@, pos as int) == Some((t.0, t.1 as int)) && pos <= t.1 <= n,
            None => sp_node(s@, pos as int) is None,
        },
{
    proof {
        reveal_strlit("node ");
        reveal_strlit(" ");
        reveal_strlit("\n");
        assert("node "@ =~= kw_node());
        assert(" "@ =~= sp());
        assert("\n"@ =~= nl());
    }
    let p1 = match p_lit(s, n, pos, "node ") {
        Some(p) => p,
        None => {
            return None;
        },
    };
    let (time, p2) = match p_num(s, n, p1, 0xffff_ffff) {
        Some(v) => v,
        None => {
            return None;
        },
    };
    let p3 = match p_lit(s, n, p2, " ") {
        Some(p) => p,
        None => {
            return None;
        },
    };
    let (value, p4) = match p_num(s, n, p3, u64::MAX) {
        Some(v) => v,
        None => {
            return None;
        },
    };
    let p5 = match p_lit(s, n, p4, " ") {
        Some(p) => p,
        None => {
            return None;
        },
    };
    let (tag, p6) = match p_num(s, n, p5, 1) {
        Some(v) => v,
        None => {
            return None;
        },
    };
    let p7 = match p_lit(s, n, p6, "\n") {
        Some(p) => p,
        None => {
            return None;
        },
    };
    let interp = match InterpType::from_tag(tag) {
        Some(i) => i,
        None => {
            return None;
        },
    };
    proof {
        assert(time <= 0xffff_ffff);
    }
    Some((Node::new(time as u32, value, interp), p7))
}

/// Parses exactly `count` node lines.
fn p_nodes(s: &str, n: usize, pos: usize, count: usize) -> (r: Option<(Vec<Node>, usize)>)
    requires
        n == s@.len(),
        pos <= n,
    ensures
        match r {
            Some(t) => sp_nodes(s@, pos as int, count as nat) == Some((t.0@, t.1 as int)) && pos
                <= t.1 <= n,
            None => sp_nodes(s@, pos as int, count as nat) is None,
        },
{
    let mut acc: Vec<Node> = Vec::new();
    let mut p: usize = pos;
    let mut i: usize = 0;
    while i < count
        invariant
            n == s@.len(),
            pos <= p <= n,
            i <= count,
            match sp_nodes(s@, p as int, (count - i) as nat) {
                Some(rp) => sp_nodes(s@, pos as int, count as nat) == Some((acc@ + rp.0, rp.1)),
                None => sp_nodes(s@, pos as int, count as nat) is None,
            },
        decreases count - i,
    {
        let ghost c = (count - i) as nat;
        match p_node(s, n, p) {
            None => {
                proof {
                    assert(sp_nodes(s@, p as int, c) is None);
                }
                return None;
            },
            Some((node, p2)) => {
                proof {
                    let tail = sp_nodes(s@, p2 as int, (c - 1) as nat);
                    assert(sp_nodes(s@, p as int, c) == match tail {
                        None => None,
                        Some((rest, pend)) => Some((seq![node] + rest, pend)),
                    });
                    match tail {
                        Some(rp) => {
                            assert(acc@.push(node) + rp.0 =~= acc@ + (seq![node] + rp.0));
                        },
                        None => {},
                    }
                }
                acc.push(node);
                p = p2;
                i += 1;
            },
        }
    }
    proof {
        assert(sp_nodes(s@, p as int, 0) == Some((Seq::<Node>::empty(), p as int)));
        assert(acc@ + Seq::<Node>::empty() =~= acc@);
    }
    Some((acc, p))
}

/// Parses one track, yielding its name, its checked node list, and
/// the position after it.
fn p_track(s: &str, n: usize, pos: usize) -> (r: Option<((String, Vec<Node>), usize)>)
    requires
        n == s@.len(),
        pos <= n,
    ensures
        match r {
            Some(t) => {
                &&& sp_track(s@, pos as int) == Some(((t.0.0@, t.0.1@), t.1 as int))
                &&& pos <= t.1 <= n
                &&& t.0.1@.len() >= 1
                &&& t.0.1@[0].time == 0
                &&& strictly_ordered(t.0.1@)
            },
            None => sp_track(s@, pos as int) is None,
        },
{
    proof {
        reveal_strlit("track ");
        reveal_strlit(" ");
        reveal_strlit("\n");
        assert("track "@ =~= kw_track());
        assert(" "@ =~= sp());
        assert("\n"@ =~= nl());
    }
    let p1 = match p_lit(s, n, pos, "track ") {
        Some(p) => p,
        None => {
            return None;
        },
    };
    let (namelen64, p2) = match p_num(s, n, p1, usize::MAX as u64) {
        Some(v) => v,
        None => {
            return None;
        },
    };
    let p3 = match p_lit(s, n, p2, " ") {
        Some(p) => p,
        None => {
            return None;
        },
    };
    let namelen = namelen64 as usize;
    if namelen > n - p3 {
        return None;
    }
    let name = s.substring_char(p3, p3 + namelen).to_owned();
    let p4 = p3 + namelen;
    let p5 = match p_lit(s, n, p4, " ") {
        Some(p) => p,
        None => {
            return None;
        },
    };
    let (count64, p6) = match p_num(s, n, p5, usize::MAX as u64) {
        Some(v) => v,
        None => {
            return None;
        },
    };
    let p7 = match p_lit(s, n, p6, "\n") {
        Some(p) => p,
        None => {
            return None;
        },
    };
    let count = count64 as usize;
    let (nodes, p8) = match p_nodes(s, n, p7, count) {
        Some(v) => v,
        None => {
            return None;
        },
    };
    if !check_node_list(&nodes) {
        return None;
    }
    Some(((name, nodes), p8))
}

/// Checks that a decoded node list carries the track invariants:
/// non-empty, opening at time 0, strictly increasing times.
fn check_node_list(nodes: &Vec<Node>) -> (b: bool)
    ensures
        b == (nodes@.len() >= 1 && nodes@[0].time == 0 && strictly_ordered(nodes@)),
{
    if nodes.len() == 0 {
        return false;
    }
    if nodes[0].get_time() != 0 {
        return false;
    }
    let mut i: usize = 1;
    while i < nodes.len()
        invariant
            1 <= i <= nodes@.len(),
            forall|k: int| 1 <= k < i ==> (#[trigger] nodes@[k].time) > nodes@[k - 1].time,
        decreases nodes.len() - i,
    {
        if nodes[i - 1].get_time() >= nodes[i].get_time() {
            proof {
                assert(!strictly_ordered(nodes@)) by {
                    if strictly_ordered(nodes@) {
                        assert(nodes@[i - 1].time < nodes@[i as int].time);
                    }
                }
            }
            return false;
        }
        i += 1;
    }
    proof {
        assert(strictly_ordered(nodes@)) by {
            assert forall|a: int, b: int| 0 <= a < b < nodes@.len() implies nodes@[a].time
                < nodes@[b].time by {
                lemma_chain_ordered(nodes@, a, b);
            }
        }
    }
    true
}

/// Looks for two decoded tracks that share a name.
fn has_duplicate_name(tracks: &Vec<Track>) -> (dup: bool)
    ensures
        dup == !unique_names(track_models(tracks@)),
{
    let ghost models = track_models(tracks@);
    let mut i: usize = 0;
    while i < tracks.len()
        invariant
            models == track_models(tracks@),
            i <= tracks@.len(),
            forall|a: int, b: int|
                0 <= a < b < tracks@.len() && a < i ==> (#[trigger] models[a]).0 != (
                #[trigger] models[b]).0,
        decreases tracks.len() - i,
    {
        let mut j: usize = i + 1;
        while j < tracks.len()
            invariant
                models == track_models(tracks@),
                i < j <= tracks@.len(),
                i < tracks@.len(),
                forall|b: int| i < b < j ==> (#[trigger] models[b]).0 != models[i as int].0,
            decreases tracks.len() - j,
        {
            if str_eq(tracks[i].get_name(), tracks[j].get_name()) {
                proof {
                    assert(models[i as int].0 == models[j as int].0);
                    assert(!unique_names(models));
                }
                return true;
            }
            j += 1;
        }
        i += 1;
    }
    proof {
        assert(unique_names(models));
    }
    false
}

/// Parses exactly `count` tracks, building them as they arrive.
fn p_tracks(s: &str, n: usize, pos: usize, count: usize) -> (r: Option<(Vec<Track>, usize)>)
    requires
        n == s@.len(),
        pos <= n,
    ensures
        match r {
            Some(t) => {
                &&& sp_tracks(s@, pos as int, count as nat) == Some(
                    (track_models(t.0@), t.1 as int),
                )
                &&& pos <= t.1 <= n
                &&& forall|i: int| 0 <= i < t.0@.len() ==> (#[trigger] t.0@[i]).wf()
            },
            None => sp_tracks(s@, pos as int, count as nat) is None,
        },
{
    let mut acc: Vec<Track> = Vec::new();
    let mut p: usize = pos;
    let mut i: usize = 0;
    while i < count
        invariant
            n == s@.len(),
            pos <= p <= n,
            i <= count,
            forall|k: int| 0 <= k < acc@.len() ==> (#[trigger] acc@[k]).wf(),
            match sp_tracks(s@, p as int, (count - i) as nat) {
                Some(rp) => sp_tracks(s@, pos as int, count as nat) == Some(
                    (track_models(acc@) + rp.0, rp.1),
                ),
                None => sp_tracks(s@, pos as int, count as nat) is None,
            },
        decreases count - i,
    {
        let ghost c = (count - i) as nat;
        match p_track(s, n, p) {
            None => {
                proof {
                    assert(sp_tracks(s@, p as int, c) is None);
                }
                return None;
            },
            Some(((name, nodes), p2)) => {
                let ghost tm = (name@, nodes@);
                let track = Track::from_parts(name, nodes);
                proof {
                    let tail = sp_tracks(s@, p2 as int, (c - 1) as nat);
                    assert(sp_tracks(s@, p as int, c) == match tail {
                        None => None,
                        Some((rest, pend)) => Some((seq![tm] + rest, pend)),
                    });
                    match tail {
                        Some(rp) => {
                            assert(track_model(track) == tm);
                            assert(track_models(acc@.push(track)) =~= track_models(acc@).push(
                                tm,
                            ));
                            assert(track_models(acc@).push(tm) + rp.0 =~= track_models(acc@) + (
                            seq![tm] + rp.0));
                        },
                        None => {},
                    }
                }
                acc.push(track);
                p = p2;
                i += 1;
            },
        }
    }
    proof {
        assert(sp_tracks(s@, p as int, 0) == Some(
            (Seq::<(Seq<char>, Seq<Node>)>::empty(), p as int),
        ));
        assert(track_models(acc@) + Seq::<(Seq<char>, Seq<Node>)>::empty() =~= track_models(
            acc@,
        ));
    }
    Some((acc, p))
}

impl Timeline {
    /// Renders the whole timeline into its textual form.  The
    /// encoding is total, so this never fails; the fallible signature
    /// is kept for callers that treat persistence uniformly.
    pub fn save(&self) -> (r: Result<String, TimelineError>)
        ensures
            r is Ok,
            r matches Ok(s) ==> s@ == enc_timeline(timeline_model(*self)),
    {
        proof {
            reveal_strlit("demy ");
            reveal_strlit("\n");
            assert("demy "@ =~= kw_demy());
            assert("\n"@ =~= nl());
        }
        let tracks = self.tracks();
        let mut out = String::new();
        out.append("demy ");
        push_dec(&mut out, tracks.len() as u64);
        out.append("\n");
        let ghost header = kw_demy() + spec_dec(timeline_model(*self).len()) + nl();
        proof {
            assert(timeline_model(*self).len() == tracks@.len());
            assert(out@ =~= header);
        }
        let mut i: usize = 0;
        while i < tracks.len()
            invariant
                i <= tracks@.len(),
                tracks@ == self.spec_tracks(),
                header == kw_demy() + spec_dec(timeline_model(*self).len()) + nl(),
                out@ == header + enc_tracks(timeline_model(*self).take(i as int)),
            decreases tracks.len() - i,
        {
            enc_track_into(&mut out, &tracks[i]);
            proof {
                let m = timeline_model(*self);
                assert(m[i as int] == track_model(self.spec_tracks()[i as int]));
                assert(m.take(i + 1) =~= m.take(i as int).push(m[i as int]));
                lemma_enc_tracks_push(m.take(i as int), m[i as int]);
                assert(out@ =~= header + enc_tracks(m.take(i + 1)));
            }
            i += 1;
        }
        proof {
            let m = timeline_model(*self);
            assert(m.take(m.len() as int) =~= m);
            assert(out@ =~= enc_timeline(m));
        }
        Ok(out)
    }

    /// Rebuilds a timeline from its textual form.  Exactly the
    /// canonical documents the encoder produces are accepted: the
    /// result's content is what the document spells out, and any
    /// other text — bad framing, a non-canonical number, an unordered
    /// or zero-less node list, a repeated track name, trailing
    /// characters — is rejected as a whole.
    pub fn load(buffer: &str) -> (r: Result<Timeline, TimelineError>)
        ensures
            match r {
                Ok(tl) => {
                    &&& tl.wf()
                    &&& sp_timeline(buffer@) == Some(timeline_model(tl))
                },
                Err(e) => {
                    &&& e == TimelineError::DeserializationFailed
                    &&& sp_timeline(buffer@) is None
                },
            },
    {
        proof {
            reveal_strlit("demy ");
            reveal_strlit("\n");
            assert("demy "@ =~= kw_demy());
            assert("\n"@ =~= nl());
        }
        let n = buffer.unicode_len();
        let p1 = match p_lit(buffer, n, 0, "demy ") {
            Some(p) => p,
            None => {
                return Err(TimelineError::DeserializationFailed);
            },
        };
        let (count64, p2) = match p_num(buffer, n, p1, usize::MAX as u64) {
            Some(v) => v,
            None => {
                return Err(TimelineError::DeserializationFailed);
            },
        };
        let p3 = match p_lit(buffer, n, p2, "\n") {
            Some(p) => p,
            None => {
                return Err(TimelineError::DeserializationFailed);
            },
        };
        let (tracks, p4) = match p_tracks(buffer, n, p3, count64 as usize) {
            Some(v) => v,
            None => {
                return Err(TimelineError::DeserializationFailed);
            },
        };
        if p4 != n {
            return Err(TimelineError::DeserializationFailed);
        }
        let ghost models = track_models(tracks@);
        if has_duplicate_name(&tracks) {
            return Err(TimelineError::DeserializationFailed);
        }
        proof {
            assert forall|a: int, b: int| 0 <= a < b < tracks@.len() implies (
            #[trigger] tracks@[a]).spec_name() != (#[trigger] tracks@[b]).spec_name() by {
                assert(models[a] == track_model(tracks@[a]));
                assert(models[b] == track_model(tracks@[b]));
            }
        }
        let tl = Timeline::from_tracks(tracks);
        proof {
            assert(timeline_model(tl) =~= models);
        }
        Ok(tl)
    }
}

} // verus!
