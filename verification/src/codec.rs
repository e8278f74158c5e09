//! The persisted form of the recency record: a versioned, line-oriented
//! text blob. The first line is the format version; every further line is
//! one entry — sixteen hex digits of the big-endian timestamp, then the
//! identity in hex. Saving and loading are exact inverses, and any blob the
//! parser rejects loads as the empty mapping, so a corrupt or missing state
//! file never aborts the process.

use vstd::prelude::*;
use crate::recency::{entries_map, fold_touch, lemma_fold_touch_snoc, unique_ids, RecencyEntry,
    RecencyStore};

verus! {

broadcast use vstd::seq_lib::group_seq_properties;

/// Hex digits, lower case.
pub open spec fn is_hex_digit(c: u8) -> bool {
    (48 <= c && c <= 57) || (97 <= c && c <= 102)
}

pub open spec fn hex_digit(n: u8) -> u8 {
    if n < 10 {
        (48 + n) as u8
    } else {
        (87 + n) as u8
    }
}

pub open spec fn hex_val(c: u8) -> u8 {
    if c <= 57 {
        (c - 48) as u8
    } else {
        (c - 87) as u8
    }
}

/// Two lower-case hex digits for each byte, high nibble first.
pub open spec fn hex_of(bs: Seq<u8>) -> Seq<u8>
    decreases bs.len(),
{
    if bs.len() == 0 {
        Seq::empty()
    } else {
        seq![hex_digit(bs[0] / 16), hex_digit(bs[0] % 16)] + hex_of(bs.drop_first())
    }
}

pub open spec fn all_hex(cs: Seq<u8>) -> bool {
    forall|i: int| 0 <= i < cs.len() ==> is_hex_digit(cs[i])
}

/// The bytes a hex string denotes; a trailing odd digit is ignored.
pub open spec fn unhex(cs: Seq<u8>) -> Seq<u8>
    decreases cs.len(),
{
    if cs.len() < 2 {
        Seq::empty()
    } else {
        seq![(hex_val(cs[0]) * 16 + hex_val(cs[1])) as u8] + unhex(cs.skip(2))
    }
}

proof fn lemma_hex_digit_props(n: u8)
    requires
        n < 16,
    ensures
        is_hex_digit(hex_digit(n)),
        hex_val(hex_digit(n)) == n,
{
}

pub proof fn lemma_hex_of_props(bs: Seq<u8>)
    ensures
        hex_of(bs).len() == 2 * bs.len(),
        all_hex(hex_of(bs)),
        unhex(hex_of(bs)) == bs,
    decreases bs.len(),
{
    if bs.len() > 0 {
        lemma_hex_of_props(bs.drop_first());
        lemma_hex_digit_props(bs[0] / 16);
        lemma_hex_digit_props(bs[0] % 16);
        let h = hex_of(bs);
        let pair = seq![hex_digit(bs[0] / 16), hex_digit(bs[0] % 16)];
        assert forall|i: int| 0 <= i < h.len() implies is_hex_digit(h[i]) by {
            if i >= 2 {
                assert(h[i] == hex_of(bs.drop_first())[i - 2]);
            }
        }
        assert(h.skip(2) =~= hex_of(bs.drop_first()));
        assert(h[0] == pair[0] && h[1] == pair[1]);
        assert(hex_val(h[0]) * 16 + hex_val(h[1]) == bs[0]);
        assert(unhex(h) =~= bs);
    }
}

/// Every byte of a hex string, by index.
pub proof fn lemma_unhex_index(cs: Seq<u8>)
    requires
        cs.len() % 2 == 0,
    ensures
        unhex(cs).len() == cs.len() / 2,
        forall|k: int|
            0 <= k < cs.len() / 2 ==> unhex(cs)[k] == (hex_val(cs[2 * k]) * 16 + hex_val(
                cs[2 * k + 1],
            )) as u8,
    decreases cs.len(),
{
    if cs.len() >= 2 {
        lemma_unhex_index(cs.skip(2));
        assert forall|k: int|
            0 <= k < cs.len() / 2 implies unhex(cs)[k] == (hex_val(cs[2 * k]) * 16 + hex_val(
            cs[2 * k + 1],
        )) as u8 by {
            if k > 0 {
                assert(unhex(cs)[k] == unhex(cs.skip(2))[k - 1]);
                assert(cs.skip(2)[2 * (k - 1)] == cs[2 * k]);
                assert(cs.skip(2)[2 * (k - 1) + 1] == cs[2 * k + 1]);
            }
        }
    }
}

/// The timestamp as eight big-endian bytes.
pub open spec fn be_bytes(n: u64) -> Seq<u8> {
    seq![
        (n >> 56) as u8,
        (n >> 48) as u8,
        (n >> 40) as u8,
        (n >> 32) as u8,
        (n >> 24) as u8,
        (n >> 16) as u8,
        (n >> 8) as u8,
        n as u8,
    ]
}

/// The timestamp eight big-endian bytes denote.
pub open spec fn u64_of_be(bs: Seq<u8>) -> u64 {
    ((bs[0] as u64) << 56) | ((bs[1] as u64) << 48) | ((bs[2] as u64) << 40) | ((bs[3] as u64)
        << 32) | ((bs[4] as u64) << 24) | ((bs[5] as u64) << 16) | ((bs[6] as u64) << 8) | (
    bs[7] as u64)
}

pub proof fn lemma_be_bytes_round_trip(n: u64)
    ensures
        be_bytes(n).len() == 8,
        u64_of_be(be_bytes(n)) == n,
{
    let b0 = (n >> 56) as u8;
    let b1 = (n >> 48) as u8;
    let b2 = (n >> 40) as u8;
    let b3 = (n >> 32) as u8;
    let b4 = (n >> 24) as u8;
    let b5 = (n >> 16) as u8;
    let b6 = (n >> 8) as u8;
    let b7 = n as u8;
    assert(((b0 as u64) << 56) | ((b1 as u64) << 48) | ((b2 as u64) << 40) | ((b3 as u64) << 32)
        | ((b4 as u64) << 24) | ((b5 as u64) << 16) | ((b6 as u64) << 8) | (b7 as u64) == n)
        by (bit_vector)
        requires
            b0 == (n >> 56) as u8,
            b1 == (n >> 48) as u8,
            b2 == (n >> 40) as u8,
            b3 == (n >> 32) as u8,
            b4 == (n >> 24) as u8,
            b5 == (n >> 16) as u8,
            b6 == (n >> 8) as u8,
            b7 == n as u8,
    ;
}

/// The version line at the head of the blob.
pub open spec fn header() -> Seq<u8> {
    seq![118u8, 49u8, 10u8]
}

/// One persisted entry: sixteen hex digits of the big-endian timestamp,
/// the identity in hex, and a line feed.
pub open spec fn enc_entry(id: Seq<u8>, ts: u64) -> Seq<u8> {
    hex_of(be_bytes(ts)) + hex_of(id) + seq![10u8]
}

pub open spec fn enc_entries(es: Seq<(Seq<u8>, u64)>) -> Seq<u8>
    decreases es.len(),
{
    if es.len() == 0 {
        Seq::empty()
    } else {
        enc_entry(es[0].0, es[0].1) + enc_entries(es.drop_first())
    }
}

/// The whole persisted blob for a sequence of entries.
pub open spec fn encode_state(es: Seq<(Seq<u8>, u64)>) -> Seq<u8> {
    header() + enc_entries(es)
}

/// Index of the first line feed, or the length when there is none.
pub open spec fn find_nl(b: Seq<u8>) -> nat
    decreases b.len(),
{
    if b.len() == 0 {
        0
    } else if b[0] == 10 {
        0
    } else {
        (1 + find_nl(b.drop_first())) as nat
    }
}

pub proof fn lemma_find_nl(b: Seq<u8>)
    ensures
        find_nl(b) <= b.len(),
        find_nl(b) < b.len() ==> b[find_nl(b) as int] == 10,
        forall|j: int| 0 <= j < find_nl(b) ==> b[j] != 10,
    decreases b.len(),
{
    if b.len() > 0 && b[0] != 10 {
        lemma_find_nl(b.drop_first());
        assert forall|j: int| 0 <= j < find_nl(b) implies b[j] != 10 by {
            if j > 0 {
                assert(b.drop_first()[j - 1] != 10);
            }
        }
    }
}

pub proof fn lemma_find_nl_concat(a: Seq<u8>, rest: Seq<u8>)
    requires
        forall|j: int| 0 <= j < a.len() ==> a[j] != 10,
    ensures
        find_nl(a + seq![10u8] + rest) == a.len(),
    decreases a.len(),
{
    let b = a + seq![10u8] + rest;
    if a.len() == 0 {
        assert(b[0] == 10);
    } else {
        assert(b[0] == a[0]);
        assert(b.drop_first() =~= a.drop_first() + seq![10u8] + rest);
        assert(forall|j: int| 0 <= j < a.drop_first().len() ==> a.drop_first()[j] != 10);
        lemma_find_nl_concat(a.drop_first(), rest);
    }
}

/// A well-formed entry line: at least the sixteen timestamp digits, an even
/// number of identity digits, all hex.
pub open spec fn valid_line(l: Seq<u8>) -> bool {
    l.len() >= 16 && (l.len() - 16) % 2 == 0 && all_hex(l)
}

pub open spec fn line_entry(l: Seq<u8>) -> (Seq<u8>, u64) {
    (unhex(l.skip(16)), u64_of_be(unhex(l.take(16))))
}

/// Parse the lines after the header into entries; any malformed line
/// rejects the whole blob.
pub open spec fn parse_entries(b: Seq<u8>) -> Option<Seq<(Seq<u8>, u64)>>
    decreases b.len(),
{
    if b.len() == 0 {
        Some(Seq::empty())
    } else {
        let nl = find_nl(b);
        if nl >= b.len() {
            None
        } else {
            let line = b.take(nl as int);
            let rest = b.skip(nl as int + 1);
            if valid_line(line) {
                match parse_entries(rest) {
                    Option::Some(t) => Some(seq![line_entry(line)] + t),
                    Option::None => None,
                }
            } else {
                None
            }
        }
    }
}

/// Parse a whole blob: the version header, then the entries.
pub open spec fn parse_state(b: Seq<u8>) -> Option<Seq<(Seq<u8>, u64)>> {
    if b.len() >= 3 && b.take(3) == header() {
        parse_entries(b.skip(3))
    } else {
        None
    }
}

pub proof fn lemma_parse_enc_entry(id: Seq<u8>, ts: u64, rest: Seq<u8>)
    ensures
        parse_entries(enc_entry(id, ts) + rest) == match parse_entries(rest) {
            Option::Some(t) => Some(seq![(id, ts)] + t),
            Option::None => None::<Seq<(Seq<u8>, u64)>>,
        },
{
    let line = hex_of(be_bytes(ts)) + hex_of(id);
    let b = enc_entry(id, ts) + rest;
    lemma_hex_of_props(be_bytes(ts));
    lemma_hex_of_props(id);
    lemma_be_bytes_round_trip(ts);
    assert(forall|j: int| 0 <= j < line.len() ==> is_hex_digit(line[j]));
    assert(forall|j: int| 0 <= j < line.len() ==> line[j] != 10);
    assert(b =~= line + seq![10u8] + rest);
    lemma_find_nl_concat(line, rest);
    assert(find_nl(b) == line.len());
    assert(b.take(line.len() as int) =~= line);
    assert(b.skip(line.len() as int + 1) =~= rest);
    assert(valid_line(line));
    assert(line.take(16) =~= hex_of(be_bytes(ts)));
    assert(line.skip(16) =~= hex_of(id));
    assert(line_entry(line) == (id, ts));
}

pub proof fn lemma_parse_enc_entries(es: Seq<(Seq<u8>, u64)>)
    ensures
        parse_entries(enc_entries(es)) == Some(es),
    decreases es.len(),
{
    if es.len() == 0 {
        assert(es =~= Seq::<(Seq<u8>, u64)>::empty());
    } else {
        lemma_parse_enc_entries(es.drop_first());
        lemma_parse_enc_entry(es[0].0, es[0].1, enc_entries(es.drop_first()));
        assert(es[0] == (es[0].0, es[0].1));
        assert(seq![es[0]] + es.drop_first() =~= es);
    }
}

/// Law: the persisted blob parses back to exactly the entries it encodes.
pub proof fn lemma_parse_encode_state(es: Seq<(Seq<u8>, u64)>)
    ensures
        parse_state(encode_state(es)) == Some(es),
{
    let b = encode_state(es);
    assert(b.take(3) =~= header());
    assert(b.skip(3) =~= enc_entries(es));
    lemma_parse_enc_entries(es);
}

/// The entries of the store, as plain values.
pub open spec fn entry_views(s: Seq<RecencyEntry>) -> Seq<(Seq<u8>, u64)> {
    s.map_values(|e: RecencyEntry| (e.id@, e.last_used))
}

/// Law: replaying a well-formed store's own entries rebuilds its mapping,
/// so a persist-then-load round trip restores the mapping exactly.
pub proof fn lemma_fold_touch_entries(s: Seq<RecencyEntry>)
    requires
        unique_ids(s),
    ensures
        fold_touch(Map::<Seq<u8>, u64>::empty(), entry_views(s)) == entries_map(s),
    decreases s.len(),
{
    if s.len() == 0 {
        assert(entry_views(s) =~= Seq::<(Seq<u8>, u64)>::empty());
    } else {
        let d = s.drop_last();
        assert(unique_ids(d));
        lemma_fold_touch_entries(d);
        assert(entry_views(s) =~= entry_views(d).push((s.last().id@, s.last().last_used)));
        lemma_fold_touch_snoc(
            Map::<Seq<u8>, u64>::empty(),
            entry_views(d),
            (s.last().id@, s.last().last_used),
        );
        crate::recency::lemma_entries_map_contains(d, s.last().id@);
        assert(forall|i: int| 0 <= i < d.len() ==> d[i] == s[i]);
        assert(!entries_map(d).contains_key(s.last().id@));
    }
}

pub proof fn lemma_hex_of_push(s: Seq<u8>, x: u8)
    ensures
        hex_of(s.push(x)) == hex_of(s) + seq![hex_digit(x / 16), hex_digit(x % 16)],
    decreases s.len(),
{
    if s.len() == 0 {
        assert(s.push(x)[0] == x);
        assert(s.push(x).drop_first() =~= Seq::<u8>::empty());
        assert(hex_of(s.push(x)) =~= hex_of(s) + seq![hex_digit(x / 16), hex_digit(x % 16)]);
    } else {
        assert(s.push(x)[0] == s[0]);
        assert(s.push(x).drop_first() =~= s.drop_first().push(x));
        lemma_hex_of_push(s.drop_first(), x);
        assert(hex_of(s.push(x)) =~= hex_of(s) + seq![hex_digit(x / 16), hex_digit(x % 16)]);
    }
}

pub proof fn lemma_enc_entries_push(es: Seq<(Seq<u8>, u64)>, e: (Seq<u8>, u64))
    ensures
        enc_entries(es.push(e)) == enc_entries(es) + enc_entry(e.0, e.1),
    decreases es.len(),
{
    if es.len() == 0 {
        assert(es.push(e)[0] == e);
        assert(es.push(e).drop_first() =~= Seq::<(Seq<u8>, u64)>::empty());
        assert(enc_entries(es.push(e)) =~= enc_entries(es) + enc_entry(e.0, e.1));
    } else {
        assert(es.push(e)[0] == es[0]);
        assert(es.push(e).drop_first() =~= es.drop_first().push(e));
        lemma_enc_entries_push(es.drop_first(), e);
        assert(enc_entries(es.push(e)) =~= enc_entries(es) + enc_entry(e.0, e.1));
    }
}

fn hex_digit_x(n: u8) -> (r: u8)
    requires
        n < 16,
    ensures
        r == hex_digit(n),
{
    if n < 10 {
        48 + n
    } else {
        87 + n
    }
}

fn hex_val_x(c: u8) -> (r: u8)
    requires
        is_hex_digit(c),
    ensures
        r == hex_val(c),
        r <= 15,
{
    if c <= 57 {
        c - 48
    } else {
        c - 87
    }
}

fn is_hex_x(c: u8) -> (r: bool)
    ensures
        r == is_hex_digit(c),
{
    (48 <= c && c <= 57) || (97 <= c && c <= 102)
}

/// The byte denoted by the two hex digits at `k`.
fn hex_pair(b: &Vec<u8>, k: usize) -> (r: u8)
    requires
        k + 1 < b@.len(),
        is_hex_digit(b@[k as int]),
        is_hex_digit(b@[k as int + 1]),
    ensures
        r == (hex_val(b@[k as int]) * 16 + hex_val(b@[k as int + 1])) as u8,
{
    let n = b.len();
    assert(k + 1 < n);
    let hi = hex_val_x(b[k]);
    let lo = hex_val_x(b[k + 1]);
    assert(hi * 16 + lo <= 255);
    hi * 16 + lo
}

fn push_hex_all(out: &mut Vec<u8>, bytes: &Vec<u8>)
    ensures
        final(out)@ == old(out)@ + hex_of(bytes@),
{
    let mut k: usize = 0;
    proof {
        assert(bytes@.take(0) =~= Seq::<u8>::empty());
        assert(out@ =~= out@ + hex_of(bytes@.take(0)));
    }
    while k < bytes.len()
        invariant
            k <= bytes@.len(),
            out@ == old(out)@ + hex_of(bytes@.take(k as int)),
        decreases bytes@.len() - k,
    {
        let x = bytes[k];
        out.push(hex_digit_x(x / 16));
        out.push(hex_digit_x(x % 16));
        proof {
            lemma_hex_of_push(bytes@.take(k as int), x);
            assert(bytes@.take(k as int).push(x) =~= bytes@.take(k as int + 1));
            assert(out@ =~= old(out)@ + hex_of(bytes@.take(k as int + 1)));
        }
        k += 1;
    }
    proof {
        assert(bytes@.take(bytes@.len() as int) =~= bytes@);
    }
}

fn be_bytes_vec(n: u64) -> (r: Vec<u8>)
    ensures
        r@ == be_bytes(n),
{
    let mut v: Vec<u8> = Vec::new();
    v.push(#[verifier::truncate] ((n >> 56) as u8));
    v.push(#[verifier::truncate] ((n >> 48) as u8));
    v.push(#[verifier::truncate] ((n >> 40) as u8));
    v.push(#[verifier::truncate] ((n >> 32) as u8));
    v.push(#[verifier::truncate] ((n >> 24) as u8));
    v.push(#[verifier::truncate] ((n >> 16) as u8));
    v.push(#[verifier::truncate] ((n >> 8) as u8));
    v.push(#[verifier::truncate] (n as u8));
    proof {
        assert(v@ =~= be_bytes(n));
    }
    v
}

/// The persisted blob for the store: the version header and one line per
/// entry. The blob parses back to exactly the stored mapping.
pub fn save_to_bytes(store: &RecencyStore) -> (r: Vec<u8>)
    requires
        store.wf(),
    ensures
        parse_state(r@) matches Some(es) && fold_touch(Map::<Seq<u8>, u64>::empty(), es)
            == store@,
{
    let entries = store.snapshot_entries();
    let ghost evs = entry_views(entries@);
    let mut out: Vec<u8> = Vec::new();
    out.push(118u8);
    out.push(49u8);
    out.push(10u8);
    proof {
        assert(out@ =~= header());
        assert(evs.take(0) =~= Seq::<(Seq<u8>, u64)>::empty());
        assert(out@ =~= header() + enc_entries(evs.take(0)));
    }
    let mut i: usize = 0;
    while i < entries.len()
        invariant
            i <= entries@.len(),
            evs == entry_views(entries@),
            evs.len() == entries@.len(),
            out@ == header() + enc_entries(evs.take(i as int)),
        decreases entries@.len() - i,
    {
        let ts = entries[i].last_used;
        let tsb = be_bytes_vec(ts);
        let ghost out0 = out@;
        push_hex_all(&mut out, &tsb);
        push_hex_all(&mut out, &entries[i].id);
        out.push(10u8);
        proof {
            assert(out@ =~= out0 + enc_entry(entries@[i as int].id@, ts));
            lemma_enc_entries_push(evs.take(i as int), (entries@[i as int].id@, ts));
            assert(evs[i as int] == (entries@[i as int].id@, ts));
            assert(evs.take(i as int).push(evs[i as int]) =~= evs.take(i as int + 1));
            assert(out@ =~= header() + enc_entries(evs.take(i as int + 1)));
        }
        i += 1;
    }
    proof {
        assert(evs.take(entries@.len() as int) =~= evs);
        assert(out@ =~= encode_state(evs));
        lemma_parse_encode_state(evs);
        lemma_fold_touch_entries(entries@);
    }
    out
}

/// Whether every byte in `b[pos..j]` is a hex digit.
fn all_hex_range(b: &Vec<u8>, pos: usize, j: usize) -> (r: bool)
    requires
        pos <= j,
        j <= b@.len(),
    ensures
        r == all_hex(b@.subrange(pos as int, j as int)),
{
    let ghost line = b@.subrange(pos as int, j as int);
    proof {
        assert(forall|t: int| 0 <= t < line.len() ==> line[t] == b@[pos + t]);
    }
    let mut k: usize = pos;
    while k < j
        invariant
            pos <= k <= j,
            j <= b@.len(),
            line == b@.subrange(pos as int, j as int),
            forall|t: int| pos <= t < k ==> is_hex_digit(b@[t]),
        decreases j - k,
    {
        if !is_hex_x(b[k]) {
            proof {
                assert(line[k - pos] == b@[k as int]);
            }
            return false;
        }
        k += 1;
    }
    true
}

/// Decode one entry line `b[pos..j]`: the identity bytes and the timestamp.
#[verifier::loop_isolation(false)]
#[verifier::rlimit(60)]
fn parse_line_body(b: &Vec<u8>, pos: usize, j: usize) -> (r: (Vec<u8>, u64))
    requires
        pos + 16 <= j,
        j <= b@.len(),
        (j - pos - 16) % 2 == 0,
        all_hex(b@.subrange(pos as int, j as int)),
    ensures
        r.0@ == unhex(b@.subrange(pos as int, j as int).skip(16)),
        r.1 == u64_of_be(unhex(b@.subrange(pos as int, j as int).take(16))),
{
    let ghost line = b@.subrange(pos as int, j as int);
    proof {
        assert(forall|t: int| 0 <= t < line.len() ==> line[t] == b@[pos + t]);
        assert forall|t: int| pos <= t < j implies is_hex_digit(b@[t]) by {
            assert(is_hex_digit(line[t - pos]));
        }
        lemma_unhex_index(line.take(16));
        assert(forall|t: int| 0 <= t < 16 ==> line.take(16)[t] == b@[pos + t]);
        lemma_unhex_index(line.skip(16));
        assert(forall|t: int|
            0 <= t < line.len() - 16 ==> line.skip(16)[t] == b@[pos + 16 + t]);
    }
    let ghost tsbytes = unhex(line.take(16));
    let t0 = hex_pair(b, pos);
    let t1 = hex_pair(b, pos + 2);
    let t2 = hex_pair(b, pos + 4);
    let t3 = hex_pair(b, pos + 6);
    let t4 = hex_pair(b, pos + 8);
    let t5 = hex_pair(b, pos + 10);
    let t6 = hex_pair(b, pos + 12);
    let t7 = hex_pair(b, pos + 14);
    let ts: u64 = ((t0 as u64) << 56) | ((t1 as u64) << 48) | ((t2 as u64) << 40) | ((t3 as u64)
        << 32) | ((t4 as u64) << 24) | ((t5 as u64) << 16) | ((t6 as u64) << 8) | (t7 as u64);
    proof {
        assert(tsbytes[0] == t0 && tsbytes[1] == t1 && tsbytes[2] == t2 && tsbytes[3] == t3
            && tsbytes[4] == t4 && tsbytes[5] == t5 && tsbytes[6] == t6 && tsbytes[7] == t7);
        assert(ts == u64_of_be(tsbytes));
    }
    let nbytes = (j - pos - 16) / 2;
    let mut id: Vec<u8> = Vec::new();
    let mut k2: usize = 0;
    while k2 < nbytes
        invariant
            k2 <= nbytes,
            id@.len() == k2,
            forall|t: int| 0 <= t < k2 ==> id@[t] == unhex(line.skip(16))[t],
        decreases nbytes - k2,
    {
        let byte = hex_pair(b, pos + 16 + 2 * k2);
        id.push(byte);
        k2 += 1;
    }
    proof {
        assert(id@ =~= unhex(line.skip(16)));
    }
    (id, ts)
}

/// Parse the entry line that starts at `pos`: the identity, the timestamp,
/// and where the next line starts. `None` means the rest of the blob is
/// malformed.
#[verifier::rlimit(60)]
fn parse_one(b: &Vec<u8>, pos: usize) -> (r: Option<(Vec<u8>, u64, usize)>)
    requires
        pos < b@.len(),
    ensures
        match r {
            Option::Some(p) => {
                &&& pos < p.2 <= b@.len()
                &&& parse_entries(b@.skip(pos as int)) == (match parse_entries(
                    b@.skip(p.2 as int),
                ) {
                    Option::Some(t) => Option::Some(seq![(p.0@, p.1)] + t),
                    Option::None => Option::None::<Seq<(Seq<u8>, u64)>>,
                })
            },
            Option::None => parse_entries(b@.skip(pos as int)) is None,
        },
{
    let ghost rem = b@.skip(pos as int);
    proof {
        lemma_find_nl(rem);
        assert(forall|k: int| 0 <= k < rem.len() ==> rem[k] == b@[pos + k]);
    }
    // find the end of the current line
    let mut j: usize = pos;
    while j < b.len() && b[j] != 10
        invariant
            pos <= j <= b@.len(),
            forall|k: int| pos <= k < j ==> b@[k] != 10,
        decreases b@.len() - j,
    {
        j += 1;
    }
    if j == b.len() {
        proof {
            assert(forall|k: int| 0 <= k < rem.len() ==> rem[k] != 10);
            assert(find_nl(rem) == rem.len());
        }
        return None;
    }
    let ghost nl = j - pos;
    let ghost line = rem.take(nl as int);
    proof {
        assert(rem[nl as int] == 10);
        assert(find_nl(rem) == nl);
        assert(line =~= b@.subrange(pos as int, j as int));
        assert(forall|k: int| 0 <= k < nl ==> line[k] == b@[pos + k]);
        assert(rem.skip(nl as int + 1) =~= b@.skip(j as int + 1));
    }
    let line_len = j - pos;
    if line_len < 16 || (line_len - 16) % 2 != 0 {
        proof {
            assert(!valid_line(line));
        }
        return None;
    }
    if !all_hex_range(b, pos, j) {
        proof {
            assert(!valid_line(line));
        }
        return None;
    }
    let (id, ts) = parse_line_body(b, pos, j);
    proof {
        assert(valid_line(line));
        assert(line_entry(line) == (id@, ts));
        match parse_entries(b@.skip(j as int + 1)) {
            Option::Some(t2) => {
                assert(parse_entries(rem) == Option::Some(seq![(id@, ts)] + t2));
            },
            Option::None => {
                assert(parse_entries(rem) is None);
            },
        }
    }
    Some((id, ts, j + 1))
}

/// Rebuild a store from a persisted blob. A blob the parser rejects —
/// corrupt, truncated, or of an unknown version — loads as the empty
/// mapping rather than an error, so bad state never aborts the process.
pub fn load_from_bytes(b: &Vec<u8>) -> (s: RecencyStore)
    ensures
        s.wf(),
        s@ == (match parse_state(b@) {
            Option::Some(es) => fold_touch(Map::<Seq<u8>, u64>::empty(), es),
            Option::None => Map::<Seq<u8>, u64>::empty(),
        }),
{
    if b.len() < 3 || b[0] != 118 || b[1] != 49 || b[2] != 10 {
        proof {
            if b@.len() >= 3 {
                assert(b@.take(3)[0] == b@[0]);
                assert(b@.take(3)[1] == b@[1]);
                assert(b@.take(3)[2] == b@[2]);
                assert(b@.take(3) != header());
            }
        }
        return RecencyStore::new();
    }
    proof {
        assert(b@.take(3) =~= header());
    }
    let ghost tail = b@.skip(3);
    let mut store = RecencyStore::new();
    let ghost mut done: Seq<(Seq<u8>, u64)> = Seq::empty();
    let mut pos: usize = 3;
    while pos < b.len()
        invariant
            3 <= pos <= b@.len(),
            b@.len() >= 3,
            b@.take(3) == header(),
            tail == b@.skip(3),
            store.wf(),
            store@ == fold_touch(Map::<Seq<u8>, u64>::empty(), done),
            parse_entries(tail) == (match parse_entries(b@.skip(pos as int)) {
                Option::Some(t) => Option::Some(done + t),
                Option::None => Option::None::<Seq<(Seq<u8>, u64)>>,
            }),
        decreases b@.len() - pos,
    {
        match parse_one(b, pos) {
            Option::None => {
                return RecencyStore::new();
            },
            Option::Some((id, ts, newpos)) => {
                let ghost e = (id@, ts);
                let ghost done0 = done;
                proof {
                    lemma_fold_touch_snoc(Map::<Seq<u8>, u64>::empty(), done0, e);
                    done = done.push(e);
                    match parse_entries(b@.skip(newpos as int)) {
                        Option::Some(t2) => {
                            assert(done0 + (seq![e] + t2) =~= done + t2);
                        },
                        Option::None => {
                        },
                    }
                }
                store.touch(id, ts);
                pos = newpos;
            },
        }
    }
    proof {
        assert(b@.skip(pos as int).len() == 0);
        assert(parse_entries(b@.skip(pos as int)) == Option::Some(Seq::<(Seq<u8>, u64)>::empty()));
        assert(done + Seq::<(Seq<u8>, u64)>::empty() =~= done);
    }
    store
}

} // verus!
