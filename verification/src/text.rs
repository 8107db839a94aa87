use vstd::prelude::*;

verus! {

/// The sequence of characters that `str::to_lowercase` produces for a given
/// input; the result depends on the input characters alone.
pub uninterp spec fn lower_of(s: Seq<char>) -> Seq<char>;

/// Relies on `str::to_lowercase`: the lowercased text is a function of the
/// input characters alone, here named `lower_of`.
#[verifier::external_body]
pub fn lowercase(s: &str) -> (r: String)
    ensures
        r@ == lower_of(s@),
{
    s.to_lowercase()
}

/// Relies on `String as FromIterator<char>` (via `collect`): collecting
/// characters yields exactly the string of those characters.
#[verifier::external_body]
pub fn chars_to_string(v: &Vec<char>) -> (r: String)
    ensures
        r@ == v@,
{
    v.iter().collect()
}

pub open spec fn valid_char_value(x: u32) -> bool {
    x < 0xD800 || (0xE000 <= x && x <= 0x10FFFF)
}

/// Relies on `char::from_u32`: it returns `Some` exactly on Unicode scalar
/// values, and the character it returns has the given code point.
#[verifier::external_body]
pub fn u32_to_char(x: u32) -> (r: Option<char>)
    ensures
        r is Some <==> valid_char_value(x),
        r is Some ==> r->Some_0 as u32 == x,
{
    char::from_u32(x)
}

/// Character-by-character string equality, equivalent to equality of views.
pub fn str_eq(a: &str, b: &str) -> (r: bool)
    ensures
        r == (a@ == b@),
{
    let alen = a.unicode_len();
    let blen = b.unicode_len();
    if alen != blen {
        return false;
    }
    let mut i: usize = 0;
    while i < alen
        invariant
            i <= alen,
            alen == a@.len(),
            alen == b@.len(),
            forall|j: int| 0 <= j < i ==> a@[j] == b@[j],
        decreases alen - i,
    {
        if a.get_char(i) != b.get_char(i) {
            return false;
        }
        i += 1;
    }
    proof {
        assert(a@ =~= b@);
    }
    true
}

/// The characters that trimming removes at either end: the Unicode
/// White_Space set, the same set `str::trim` goes by.
pub open spec fn is_trim_ws(c: char) -> bool {
    let u = c as u32;
    ||| (9 <= u && u <= 13)
    ||| u == 32
    ||| u == 0x85
    ||| u == 0xA0
    ||| u == 0x1680
    ||| (0x2000 <= u && u <= 0x200A)
    ||| u == 0x2028
    ||| u == 0x2029
    ||| u == 0x202F
    ||| u == 0x205F
    ||| u == 0x3000
}

pub fn is_ws_exec(c: char) -> (r: bool)
    ensures
        r == is_trim_ws(c),
{
    let u = c as u32;
    (9 <= u && u <= 13) || u == 32 || u == 0x85 || u == 0xA0 || u == 0x1680 || (0x2000 <= u && u
        <= 0x200A) || u == 0x2028 || u == 0x2029 || u == 0x202F || u == 0x205F || u == 0x3000
}

/// The text with leading and trailing whitespace removed.
pub open spec fn trim_spec(s: Seq<char>) -> Seq<char>
    decreases s.len(),
{
    if s.len() == 0 {
        s
    } else if is_trim_ws(s[0]) {
        trim_spec(s.skip(1))
    } else if is_trim_ws(s.last()) {
        trim_spec(s.drop_last())
    } else {
        s
    }
}

/// Remove leading and trailing whitespace.
pub fn trimmed(s: &str) -> (r: String)
    ensures
        r@ == trim_spec(s@),
{
    let cs = string_to_chars(s);
    let mut lo: usize = 0;
    let mut hi: usize = cs.len();
    proof {
        assert(s@.subrange(0, s@.len() as int) =~= s@);
    }
    while lo < hi && (is_ws_exec(cs[lo]) || is_ws_exec(cs[hi - 1]))
        invariant
            lo <= hi <= cs@.len(),
            cs@ == s@,
            trim_spec(s@) == trim_spec(s@.subrange(lo as int, hi as int)),
        decreases hi - lo,
    {
        let sub = Ghost(s@.subrange(lo as int, hi as int));
        if is_ws_exec(cs[lo]) {
            proof {
                assert(sub@.skip(1) =~= s@.subrange(lo + 1, hi as int));
            }
            lo += 1;
        } else {
            proof {
                assert(sub@.drop_last() =~= s@.subrange(lo as int, hi - 1));
            }
            hi -= 1;
        }
    }
    let mut out: Vec<char> = Vec::new();
    let mut i: usize = lo;
    while i < hi
        invariant
            lo <= i <= hi <= cs@.len(),
            cs@ == s@,
            out@ == s@.subrange(lo as int, i as int),
        decreases hi - i,
    {
        out.push(cs[i]);
        proof {
            assert(out@ =~= s@.subrange(lo as int, i + 1));
        }
        i += 1;
    }
    proof {
        let sub = s@.subrange(lo as int, hi as int);
        if lo == hi {
            assert(sub =~= Seq::<char>::empty());
        }
        assert(out@ == trim_spec(s@));
    }
    chars_to_string(&out)
}

/// The characters of a string, as a vector.
pub fn string_to_chars(s: &str) -> (r: Vec<char>)
    ensures
        r@ == s@,
{
    let len = s.unicode_len();
    let mut r: Vec<char> = Vec::new();
    let mut i: usize = 0;
    while i < len
        invariant
            i <= len,
            len == s@.len(),
            r@ == s@.take(i as int),
        decreases len - i,
    {
        r.push(s.get_char(i));
        proof {
            assert(r@ =~= s@.take(i + 1));
        }
        i += 1;
    }
    proof {
        assert(s@.take(len as int) =~= s@);
    }
    r
}

} // verus!
