use vstd::prelude::*;

use crate::results::entry_views;
use crate::results::ExerciseResults;
use crate::results::ExerciseResultsView;
use crate::results::StoreError;
use crate::text::chars_to_string;
use crate::text::string_to_chars;
use crate::text::u32_to_char;
use crate::text::valid_char_value;

verus! {

/// 256 raised to the `n`th power: the number of values `n` bytes can hold.
pub open spec fn pow256(n: nat) -> int
    decreases n,
{
    if n == 0 {
        1
    } else {
        256 * pow256((n - 1) as nat)
    }
}

proof fn lemma_pow256_pos(n: nat)
    ensures
        pow256(n) >= 1,
    decreases n,
{
    if n > 0 {
        lemma_pow256_pos((n - 1) as nat);
    }
}

proof fn lemma_pow256_vals()
    ensures
        pow256(4) == 0x1_0000_0000,
        pow256(8) == 0x1_0000_0000_0000_0000,
{
    reveal_with_fuel(pow256, 9);
}

/// The value `x` written as `n` little-endian bytes.
pub open spec fn le_bytes(x: int, n: nat) -> Seq<u8>
    decreases n,
{
    if n == 0 {
        Seq::empty()
    } else {
        seq![(x % 256) as u8] + le_bytes(x / 256, (n - 1) as nat)
    }
}

/// The value little-endian bytes denote.
pub open spec fn le_value(b: Seq<u8>) -> int
    decreases b.len(),
{
    if b.len() == 0 {
        0
    } else {
        b[0] + 256 * le_value(b.skip(1))
    }
}

proof fn lemma_le_bytes_len(x: int, n: nat)
    ensures
        le_bytes(x, n).len() == n,
    decreases n,
{
    if n > 0 {
        lemma_le_bytes_len(x / 256, (n - 1) as nat);
    }
}

proof fn lemma_le_value_bound(b: Seq<u8>)
    ensures
        0 <= le_value(b) < pow256(b.len() as nat),
    decreases b.len(),
{
    if b.len() == 0 {
    } else {
        lemma_le_value_bound(b.skip(1));
        assert(pow256(b.len() as nat) == 256 * pow256((b.len() - 1) as nat));
    }
}

proof fn lemma_le_round_trip(x: int, n: nat)
    requires
        0 <= x < pow256(n),
    ensures
        le_value(le_bytes(x, n)) == x,
    decreases n,
{
    if n > 0 {
        let p = pow256((n - 1) as nat);
        lemma_pow256_pos((n - 1) as nat);
        assert(pow256(n) == 256 * p);
        assert(x / 256 < p) by (nonlinear_arith)
            requires
                0 <= x,
                x < 256 * p,
                p >= 1,
        ;
        lemma_le_round_trip(x / 256, (n - 1) as nat);
        assert(le_bytes(x, n).skip(1) =~= le_bytes(x / 256, (n - 1) as nat));
        assert(le_bytes(x, n)[0] == (x % 256) as u8);
    }
}

/// The `nbytes` little-endian bytes of `x`, as a vector.
fn le_bytes_vec(x: u64, nbytes: usize) -> (r: Vec<u8>)
    requires
        (x as int) < pow256(nbytes as nat),
    ensures
        r@ == le_bytes(x as int, nbytes as nat),
{
    let ghost x0 = x as int;
    let mut out: Vec<u8> = Vec::new();
    let mut x = x;
    let mut i: usize = 0;
    proof {
        assert(out@ + le_bytes(x0, nbytes as nat) =~= le_bytes(x0, nbytes as nat));
    }
    while i < nbytes
        invariant
            i <= nbytes,
            out@.len() == i,
            le_bytes(x0, nbytes as nat) == out@ + le_bytes(x as int, (nbytes - i) as nat),
        decreases nbytes - i,
    {
        let ghost out_before = out@;
        let ghost x_before = x as int;
        let b = (x % 256) as u8;
        out.push(b);
        x = x / 256;
        proof {
            assert(le_bytes(x_before, (nbytes - i) as nat) == seq![(x_before % 256) as u8]
                + le_bytes(x_before / 256, (nbytes - i - 1) as nat));
            assert(out@ + le_bytes(x as int, (nbytes - i - 1) as nat) =~= le_bytes(
                x0,
                nbytes as nat,
            ));
        }
        i += 1;
    }
    proof {
        assert(le_bytes(x0, nbytes as nat) =~= out@);
    }
    out
}

/// Read `nbytes` little-endian bytes starting at `pos`.
fn read_le(data: &Vec<u8>, pos: usize, nbytes: usize) -> (r: u64)
    requires
        pos + nbytes <= data@.len(),
        nbytes <= 8,
    ensures
        r as int == le_value(data@.subrange(pos as int, pos + nbytes)),
{
    let dlen = data.len();
    proof {
        lemma_pow256_vals();
        assert(dlen == data@.len());
    }
    let mut acc: u64 = 0;
    let mut i: usize = nbytes;
    while i > 0
        invariant
            i <= nbytes,
            nbytes <= 8,
            pos + nbytes <= data@.len(),
            pos + nbytes <= usize::MAX,
            acc as int == le_value(data@.subrange(pos + i, pos + nbytes)),
            (acc as int) < pow256((nbytes - i) as nat),
            pow256(8) == 0x1_0000_0000_0000_0000,
        decreases i,
    {
        let ghost sub_after = data@.subrange(pos + i, pos + nbytes as int);
        proof {
            lemma_pow256_pos((nbytes - i) as nat);
            // room for one more byte: the accumulator stays below 256^(k+1)
            assert(pow256((nbytes - i + 1) as nat) == 256 * pow256((nbytes - i) as nat));
            lemma_pow256_le((nbytes - i + 1) as nat, 8);
            let sub = data@.subrange(pos + i - 1, pos + nbytes as int);
            assert(sub.skip(1) =~= sub_after);
            assert(sub[0] == data@[pos + i - 1]);
        }
        acc = acc * 256 + (data[pos + i - 1] as u64);
        i -= 1;
    }
    proof {
        assert(data@.subrange(pos as int, pos + nbytes) == data@.subrange(
            pos + i,
            pos + nbytes,
        ));
    }
    acc
}

proof fn lemma_pow256_le(a: nat, b: nat)
    requires
        a <= b,
    ensures
        pow256(a) <= pow256(b),
    decreases b,
{
    if a < b {
        lemma_pow256_le(a, (b - 1) as nat);
        lemma_pow256_pos((b - 1) as nat);
    }
}

/// One character of a persisted word: its code point in four bytes.
pub open spec fn encode_char(c: char) -> Seq<u8> {
    le_bytes(c as u32 as int, 4)
}

/// The characters of a persisted word, one after the other.
pub open spec fn encode_chars(w: Seq<char>) -> Seq<u8>
    decreases w.len(),
{
    if w.len() == 0 {
        Seq::empty()
    } else {
        encode_char(w[0]) + encode_chars(w.skip(1))
    }
}

/// One persisted record: the word's length in eight bytes, its
/// characters, then both counters in four bytes each.
pub open spec fn encode_entry(v: ExerciseResultsView) -> Seq<u8> {
    le_bytes(v.word.len() as int, 8) + encode_chars(v.word) + le_bytes(v.correct as int, 4)
        + le_bytes(v.wrong as int, 4)
}

/// The persisted records, one after the other.
pub open spec fn encode_list(vs: Seq<ExerciseResultsView>) -> Seq<u8>
    decreases vs.len(),
{
    if vs.len() == 0 {
        Seq::empty()
    } else {
        encode_entry(vs[0]) + encode_list(vs.skip(1))
    }
}

/// The whole persisted file: the record count in eight bytes, then the
/// records.
pub open spec fn encode_spec(vs: Seq<ExerciseResultsView>) -> Seq<u8> {
    le_bytes(vs.len() as int, 8) + encode_list(vs)
}

/// Parse `n` characters; what is behind them is handed back.
pub open spec fn parse_chars(b: Seq<u8>, n: nat) -> Option<(Seq<char>, Seq<u8>)>
    decreases n,
{
    if n == 0 {
        Some((Seq::empty(), b))
    } else if b.len() < 4 {
        None
    } else {
        let v = le_value(b.take(4)) as u32;
        if !valid_char_value(v) {
            None
        } else {
            match parse_chars(b.skip(4), (n - 1) as nat) {
                None => None,
                Some(pr) => Some((seq![v as char] + pr.0, pr.1)),
            }
        }
    }
}

/// Parse one record; what is behind it is handed back.
pub open spec fn parse_entry(b: Seq<u8>) -> Option<(ExerciseResultsView, Seq<u8>)> {
    if b.len() < 8 {
        None
    } else {
        let wl = le_value(b.take(8));
        match parse_chars(b.skip(8), wl as nat) {
            None => None,
            Some(pr) => {
                let rest = pr.1;
                if rest.len() < 8 {
                    None
                } else {
                    Some(
                        (
                            ExerciseResultsView {
                                word: pr.0,
                                correct: le_value(rest.take(4)) as u32,
                                wrong: le_value(rest.skip(4).take(4)) as u32,
                            },
                            rest.skip(8),
                        ),
                    )
                }
            },
        }
    }
}

/// Parse `n` records; what is behind them is handed back.
pub open spec fn parse_entries(b: Seq<u8>, n: nat) -> Option<(Seq<ExerciseResultsView>, Seq<u8>)>
    decreases n,
{
    if n == 0 {
        Some((Seq::empty(), b))
    } else {
        match parse_entry(b) {
            None => None,
            Some(pr) => match parse_entries(pr.1, (n - 1) as nat) {
                None => None,
                Some(pr2) => Some((seq![pr.0] + pr2.0, pr2.1)),
            },
        }
    }
}

/// What a persisted file holds, or nothing if the bytes are not exactly a
/// record count followed by that many well-formed records.
pub open spec fn decode_spec(b: Seq<u8>) -> Option<Seq<ExerciseResultsView>> {
    if b.len() < 8 {
        None
    } else {
        let n = le_value(b.take(8));
        match parse_entries(b.skip(8), n as nat) {
            None => None,
            Some(pr) => if pr.1.len() == 0 {
                Some(pr.0)
            } else {
                None
            },
        }
    }
}

proof fn lemma_encode_chars_len(w: Seq<char>)
    ensures
        encode_chars(w).len() == 4 * w.len(),
    decreases w.len(),
{
    if w.len() > 0 {
        lemma_le_bytes_len(w[0] as u32 as int, 4);
        lemma_encode_chars_len(w.skip(1));
    }
}

proof fn lemma_encode_chars_push(w: Seq<char>, c: char)
    ensures
        encode_chars(w.push(c)) == encode_chars(w) + encode_char(c),
    decreases w.len(),
{
    if w.len() == 0 {
        assert(w.push(c) =~= seq![c]);
        assert(seq![c].skip(1) =~= Seq::<char>::empty());
        assert(encode_chars(Seq::<char>::empty()) == Seq::<u8>::empty());
        assert(encode_chars(w.push(c)) == encode_char(c) + Seq::<u8>::empty());
        assert(encode_chars(w.push(c)) =~= encode_chars(w) + encode_char(c));
    } else {
        lemma_encode_chars_push(w.skip(1), c);
        assert(w.push(c).skip(1) =~= w.skip(1).push(c));
        assert(w.push(c)[0] == w[0]);
        assert(encode_chars(w.push(c)) == encode_char(w[0]) + encode_chars(w.skip(1).push(c)));
        assert(encode_char(w[0]) + (encode_chars(w.skip(1)) + encode_char(c)) =~= (encode_char(
            w[0],
        ) + encode_chars(w.skip(1))) + encode_char(c));
    }
}

proof fn lemma_encode_list_push(vs: Seq<ExerciseResultsView>, v: ExerciseResultsView)
    ensures
        encode_list(vs.push(v)) == encode_list(vs) + encode_entry(v),
    decreases vs.len(),
{
    if vs.len() == 0 {
        assert(vs.push(v) =~= seq![v]);
        assert(seq![v].skip(1) =~= Seq::<ExerciseResultsView>::empty());
        assert(encode_list(Seq::<ExerciseResultsView>::empty()) == Seq::<u8>::empty());
        assert(encode_list(vs.push(v)) == encode_entry(v) + Seq::<u8>::empty());
        assert(encode_list(vs.push(v)) =~= encode_list(vs) + encode_entry(v));
    } else {
        lemma_encode_list_push(vs.skip(1), v);
        assert(vs.push(v).skip(1) =~= vs.skip(1).push(v));
        assert(vs.push(v)[0] == vs[0]);
        assert(encode_list(vs.push(v)) == encode_entry(vs[0]) + encode_list(vs.skip(1).push(v)));
        assert(encode_entry(vs[0]) + (encode_list(vs.skip(1)) + encode_entry(v)) =~= (encode_entry(
            vs[0],
        ) + encode_list(vs.skip(1))) + encode_entry(v));
    }
}

proof fn lemma_parse_chars_round(w: Seq<char>, suffix: Seq<u8>)
    ensures
        parse_chars(encode_chars(w) + suffix, w.len()) == Some((w, suffix)),
    decreases w.len(),
{
    if w.len() == 0 {
        assert(encode_chars(w) + suffix =~= suffix);
    } else {
        let c = w[0];
        let b = encode_chars(w) + suffix;
        lemma_pow256_vals();
        lemma_le_bytes_len(c as u32 as int, 4);
        vstd::utf8::char_is_scalar(c);
        lemma_le_round_trip(c as u32 as int, 4);
        assert(b.take(4) =~= encode_char(c));
        let v = le_value(b.take(4)) as u32;
        assert(v == c as u32);
        vstd::utf8::char_u32_cast(c, v);
        assert(valid_char_value(v));
        lemma_parse_chars_round(w.skip(1), suffix);
        assert(b.skip(4) =~= encode_chars(w.skip(1)) + suffix);
        assert(seq![v as char] + w.skip(1) =~= w);
    }
}

proof fn lemma_parse_entry_round(v: ExerciseResultsView, suffix: Seq<u8>)
    requires
        v.word.len() < pow256(8),
    ensures
        parse_entry(encode_entry(v) + suffix) == Some((v, suffix)),
{
    let b = encode_entry(v) + suffix;
    lemma_pow256_vals();
    lemma_le_bytes_len(v.word.len() as int, 8);
    lemma_encode_chars_len(v.word);
    lemma_le_bytes_len(v.correct as int, 4);
    lemma_le_bytes_len(v.wrong as int, 4);
    lemma_le_round_trip(v.word.len() as int, 8);
    assert(b.take(8) =~= le_bytes(v.word.len() as int, 8));
    let tail = le_bytes(v.correct as int, 4) + le_bytes(v.wrong as int, 4) + suffix;
    assert(b.skip(8) =~= encode_chars(v.word) + tail);
    lemma_parse_chars_round(v.word, tail);
    lemma_le_round_trip(v.correct as int, 4);
    lemma_le_round_trip(v.wrong as int, 4);
    assert(tail.take(4) =~= le_bytes(v.correct as int, 4));
    assert(tail.skip(4).take(4) =~= le_bytes(v.wrong as int, 4));
    assert(tail.skip(8) =~= suffix);
}

proof fn lemma_parse_entries_round(vs: Seq<ExerciseResultsView>, suffix: Seq<u8>)
    requires
        forall|i: int| 0 <= i < vs.len() ==> (#[trigger] vs[i]).word.len() < pow256(8),
    ensures
        parse_entries(encode_list(vs) + suffix, vs.len()) == Some((vs, suffix)),
    decreases vs.len(),
{
    if vs.len() == 0 {
        assert(encode_list(vs) + suffix =~= suffix);
    } else {
        let b = encode_list(vs) + suffix;
        assert(b =~= encode_entry(vs[0]) + (encode_list(vs.skip(1)) + suffix));
        lemma_parse_entry_round(vs[0], encode_list(vs.skip(1)) + suffix);
        lemma_parse_entries_round(vs.skip(1), suffix);
        assert(seq![vs[0]] + vs.skip(1) =~= vs);
    }
}

/// Saving and then loading reproduces exactly the persisted records:
/// decoding what encoding produced gives the same sequence of
/// (word, correct, wrong) records back.
pub proof fn lemma_save_load_round_trip(vs: Seq<ExerciseResultsView>)
    requires
        vs.len() < pow256(8),
        forall|i: int| 0 <= i < vs.len() ==> (#[trigger] vs[i]).word.len() < pow256(8),
    ensures
        decode_spec(encode_spec(vs)) == Some(vs),
{
    let b = encode_spec(vs);
    lemma_pow256_vals();
    lemma_le_bytes_len(vs.len() as int, 8);
    lemma_le_round_trip(vs.len() as int, 8);
    assert(b.take(8) =~= le_bytes(vs.len() as int, 8));
    assert(b.skip(8) =~= encode_list(vs) + Seq::<u8>::empty());
    lemma_parse_entries_round(vs, Seq::<u8>::empty());
}

/// Encode the entries in the persisted format. Decoding the produced
/// bytes gives exactly these records back.
pub fn encode_results(entries: &Vec<ExerciseResults>) -> (out: Vec<u8>)
    ensures
        out@ == encode_spec(entry_views(entries@)),
        decode_spec(out@) == Some(entry_views(entries@)),
{
    let n = entries.len();
    proof {
        lemma_pow256_vals();
    }
    let mut out: Vec<u8> = le_bytes_vec(n as u64, 8);
    let mut i: usize = 0;
    proof {
        assert(entry_views(entries@.take(0)) =~= Seq::<ExerciseResultsView>::empty());
        assert(out@ + encode_list(entry_views(entries@.take(0))) =~= out@);
        assert(entry_views(entries@).len() == entries@.len());
    }
    while i < n
        invariant
            i <= n,
            n == entries@.len(),
            out@ == le_bytes(n as int, 8) + encode_list(entry_views(entries@.take(i as int))),
            forall|k: int|
                0 <= k < i ==> (#[trigger] entry_views(entries@)[k]).word.len() < pow256(8),
        decreases n - i,
    {
        let ghost prefix_views = entry_views(entries@.take(i as int));
        let ghost e_view = entries@[i as int]@;
        let cs = string_to_chars(entries[i].get_word());
        let clen = cs.len();
        proof {
            lemma_pow256_vals();
        }
        let mut part = le_bytes_vec(clen as u64, 8);
        let ghost part0 = part@;
        let mut k: usize = 0;
        proof {
            assert(part0 + encode_chars(cs@.take(0)) =~= part0);
        }
        while k < clen
            invariant
                k <= clen,
                clen == cs@.len(),
                part@ == part0 + encode_chars(cs@.take(k as int)),
            decreases clen - k,
        {
            let c = cs[k];
            proof {
                lemma_pow256_vals();
                vstd::utf8::char_is_scalar(c);
            }
            let cu: u32 = c as u32;
            let mut cb = le_bytes_vec(cu as u64, 4);
            part.append(&mut cb);
            proof {
                assert(cs@.take(k + 1) =~= cs@.take(k as int).push(c));
                lemma_encode_chars_push(cs@.take(k as int), c);
                assert(part@ =~= part0 + encode_chars(cs@.take(k + 1)));
            }
            k += 1;
        }
        let mut c1 = le_bytes_vec(entries[i].correct_count() as u64, 4);
        part.append(&mut c1);
        let mut c2 = le_bytes_vec(entries[i].wrong_count() as u64, 4);
        part.append(&mut c2);
        proof {
            assert(cs@.take(clen as int) =~= cs@);
            assert(part@ =~= encode_entry(e_view));
            assert(entry_views(entries@)[i as int] == e_view);
            assert(e_view.word.len() == clen);
        }
        let ghost out_before = out@;
        out.append(&mut part);
        proof {
            lemma_encode_list_push(prefix_views, e_view);
            assert(entry_views(entries@.take(i + 1)) =~= prefix_views.push(e_view));
            assert(out@ =~= le_bytes(n as int, 8) + encode_list(entry_views(entries@.take(i + 1))));
        }
        i += 1;
    }
    proof {
        assert(entries@.take(n as int) =~= entries@);
        assert(entry_views(entries@).len() == entries@.len());
        assert(out@ =~= encode_spec(entry_views(entries@)));
        lemma_pow256_vals();
        lemma_save_load_round_trip(entry_views(entries@));
    }
    out
}

/// Decode one record starting at `pos`.
fn decode_entry(data: &Vec<u8>, pos: usize) -> (r: Result<(ExerciseResults, usize), StoreError>)
    requires
        pos <= data@.len(),
    ensures
        r matches Ok(p) ==> parse_entry(data@.skip(pos as int)) == Some(
            (p.0@, data@.skip(p.1 as int)),
        ) && pos <= p.1 <= data@.len(),
        r is Err <==> parse_entry(data@.skip(pos as int)) is None,
        r is Err ==> r == Err::<(ExerciseResults, usize), StoreError>(StoreError::Corrupt),
{
    let dlen = data.len();
    let ghost b = data@.skip(pos as int);
    if dlen - pos < 8 {
        return Err(StoreError::Corrupt);
    }
    let wl = read_le(data, pos, 8);
    proof {
        assert(b.take(8) =~= data@.subrange(pos as int, pos + 8));
        assert(wl as int == le_value(b.take(8)));
    }
    let mut word_chars: Vec<char> = Vec::new();
    let mut cur: usize = pos + 8;
    let mut k: u64 = 0;
    proof {
        assert(word_chars@ + Seq::<char>::empty() =~= word_chars@);
    }
    while k < wl
        invariant
            pos + 8 <= cur <= dlen,
            dlen == data@.len(),
            k <= wl,
            b == data@.skip(pos as int),
            wl as int == le_value(b.take(8)),
            word_chars@.len() == k,
            match parse_chars(data@.skip(cur as int), (wl - k) as nat) {
                None => parse_chars(data@.skip(pos + 8), wl as nat) is None,
                Some(pr) => parse_chars(data@.skip(pos + 8), wl as nat) == Some(
                    (word_chars@ + pr.0, pr.1),
                ),
            },
        decreases wl - k,
    {
        let ghost rem = data@.skip(cur as int);
        if dlen - cur < 4 {
            proof {
                assert(rem.len() < 4);
                assert(parse_chars(rem, (wl - k) as nat) is None);
                assert(b.skip(8) =~= data@.skip(pos + 8));
                assert(parse_chars(b.skip(8), wl as nat) is None);
            }
            return Err(StoreError::Corrupt);
        }
        let v = read_le(data, cur, 4);
        proof {
            assert(rem.take(4) =~= data@.subrange(cur as int, cur + 4));
            lemma_le_value_bound(rem.take(4));
            lemma_pow256_vals();
        }
        let v32 = v as u32;
        match u32_to_char(v32) {
            None => {
                proof {
                    assert(parse_chars(rem, (wl - k) as nat) is None);
                    assert(b.skip(8) =~= data@.skip(pos + 8));
                    assert(parse_chars(b.skip(8), wl as nat) is None);
                }
                return Err(StoreError::Corrupt);
            },
            Some(c) => {
                proof {
                    vstd::utf8::char_u32_cast(c, v32);
                    assert(c == (le_value(rem.take(4)) as u32) as char);
                }
                let ghost chars_before = word_chars@;
                word_chars.push(c);
                cur += 4;
                k += 1;
                proof {
                    assert(rem.skip(4) =~= data@.skip(cur as int));
                    match parse_chars(data@.skip(cur as int), (wl - k) as nat) {
                        None => {
                            assert(parse_chars(rem, (wl - k + 1) as nat) is None);
                        },
                        Some(pr) => {
                            assert(parse_chars(rem, (wl - k + 1) as nat) == Some(
                                (seq![c] + pr.0, pr.1),
                            ));
                            assert(chars_before + (seq![c] + pr.0) =~= word_chars@ + pr.0);
                        },
                    }
                }
            },
        }
    }
    proof {
        assert(parse_chars(data@.skip(cur as int), 0) == Some(
            (Seq::<char>::empty(), data@.skip(cur as int)),
        ));
        assert(word_chars@ + Seq::<char>::empty() =~= word_chars@);
        assert(b.skip(8) =~= data@.skip(pos + 8));
        assert(parse_chars(b.skip(8), wl as nat) == Some((word_chars@, data@.skip(cur as int))));
    }
    let ghost rest = data@.skip(cur as int);
    if dlen - cur < 8 {
        return Err(StoreError::Corrupt);
    }
    let correct64 = read_le(data, cur, 4);
    let wrong64 = read_le(data, cur + 4, 4);
    proof {
        assert(rest.take(4) =~= data@.subrange(cur as int, cur + 4));
        assert(rest.skip(4).take(4) =~= data@.subrange(cur + 4, cur + 8));
        lemma_le_value_bound(rest.take(4));
        lemma_le_value_bound(rest.skip(4).take(4));
        lemma_pow256_vals();
        assert(rest.skip(8) =~= data@.skip(cur + 8));
    }
    let word = chars_to_string(&word_chars);
    let e = ExerciseResults::with_counts(word, correct64 as u32, wrong64 as u32);
    Ok((e, cur + 8))
}

/// Decode a persisted file; bytes that are not exactly an encoding are
/// refused.
pub fn decode_results(data: &Vec<u8>) -> (r: Result<Vec<ExerciseResults>, StoreError>)
    ensures
        r is Ok <==> decode_spec(data@) is Some,
        r matches Ok(v) ==> Some(entry_views(v@)) == decode_spec(data@),
        r is Err ==> r == Err::<Vec<ExerciseResults>, StoreError>(StoreError::Corrupt),
{
    let dlen = data.len();
    if dlen < 8 {
        return Err(StoreError::Corrupt);
    }
    let count = read_le(data, 0, 8);
    proof {
        assert(data@.take(8) =~= data@.subrange(0, 8));
        assert(count as int == le_value(data@.take(8)));
    }
    let mut out: Vec<ExerciseResults> = Vec::new();
    let mut pos: usize = 8;
    let mut k: u64 = 0;
    proof {
        assert(entry_views(out@) =~= Seq::<ExerciseResultsView>::empty());
    }
    while k < count
        invariant
            8 <= pos <= dlen,
            dlen == data@.len(),
            k <= count,
            count as int == le_value(data@.take(8)),
            entry_views(out@).len() == k,
            match parse_entries(data@.skip(pos as int), (count - k) as nat) {
                None => parse_entries(data@.skip(8), count as nat) is None,
                Some(pr) => parse_entries(data@.skip(8), count as nat) == Some(
                    (entry_views(out@) + pr.0, pr.1),
                ),
            },
        decreases count - k,
    {
        match decode_entry(data, pos) {
            Err(_) => {
                proof {
                    assert(parse_entries(data@.skip(8), count as nat) is None);
                }
                return Err(StoreError::Corrupt);
            },
            Ok(p) => {
                let ghost views_before = entry_views(out@);
                let ghost e_view = p.0@;
                let newpos = p.1;
                out.push(p.0);
                pos = newpos;
                k += 1;
                proof {
                    assert(entry_views(out@) =~= views_before.push(e_view));
                    match parse_entries(data@.skip(pos as int), (count - k) as nat) {
                        None => {},
                        Some(pr) => {
                            assert(views_before + (seq![e_view] + pr.0) =~= entry_views(out@)
                                + pr.0);
                        },
                    }
                }
            },
        }
    }
    proof {
        assert(parse_entries(data@.skip(pos as int), 0) == Some(
            (Seq::<ExerciseResultsView>::empty(), data@.skip(pos as int)),
        ));
        assert(entry_views(out@) + Seq::<ExerciseResultsView>::empty() =~= entry_views(out@));
    }
    if dlen - pos != 0 {
        proof {
            assert(data@.skip(pos as int).len() != 0);
        }
        return Err(StoreError::Corrupt);
    }
    proof {
        assert(data@.skip(pos as int).len() == 0);
    }
    Ok(out)
}

} // verus!
