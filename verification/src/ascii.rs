use vstd::prelude::*;

verus! {

/// ASCII lowercase of one character; other characters are unchanged.
pub open spec fn ascii_lower_char(c: char) -> char {
    if 'A' <= c && c <= 'Z' {
        ((c as u32 + 32) as u8) as char
    } else {
        c
    }
}

/// ASCII lowercase of a text, character by character.
pub open spec fn ascii_lower(s: Seq<char>) -> Seq<char> {
    s.map_values(|c: char| ascii_lower_char(c))
}

/// `a` ends with `b`.
pub open spec fn ends_with(a: Seq<char>, b: Seq<char>) -> bool {
    b.len() <= a.len() && a.subrange(a.len() - b.len(), a.len() as int) == b
}

/// `a` begins with `b`.
pub open spec fn begins_with(a: Seq<char>, b: Seq<char>) -> bool {
    b.len() <= a.len() && a.subrange(0, b.len() as int) == b
}

/// `b` occurs somewhere in `a`.
pub open spec fn contains_seq(a: Seq<char>, b: Seq<char>) -> bool {
    exists|k: int| 0 <= k <= a.len() - b.len() && #[trigger] a.subrange(k, k + b.len()) == b
}

/// The Unicode lowercase of a text, as `str::to_lowercase` computes it: a
/// function of the characters alone.
pub uninterp spec fn lower_of(s: Seq<char>) -> Seq<char>;

/// Relies on str::to_lowercase: the result depends on the characters alone.
#[verifier::external_body]
pub fn lowercase(s: &str) -> (r: String)
    ensures
        r@ == lower_of(s@),
{
    s.to_lowercase()
}

/// ASCII lowercase of one character.
pub fn lower_char(c: char) -> (r: char)
    ensures
        r == ascii_lower_char(c),
{
    if 'A' <= c && c <= 'Z' {
        let code: u32 = c as u32;
        ((code + 32) as u8) as char
    } else {
        c
    }
}

/// The two texts are equal up to ASCII case.
pub fn eq_ignore_ascii(a: &str, b: &str) -> (r: bool)
    ensures
        r == (ascii_lower(a@) == ascii_lower(b@)),
{
    let an = a.unicode_len();
    let bn = b.unicode_len();
    if an != bn {
        proof {
            assert(ascii_lower(a@).len() != ascii_lower(b@).len());
        }
        return false;
    }
    let mut i: usize = 0;
    while i < an
        invariant
            i <= an,
            an == a@.len() && an == b@.len(),
            forall|j: int| 0 <= j < i ==> ascii_lower(a@)[j] == ascii_lower(b@)[j],
        decreases an - i,
    {
        let ca = lower_char(a.get_char(i));
        let cb = lower_char(b.get_char(i));
        if ca != cb {
            proof {
                assert(ascii_lower(a@)[i as int] != ascii_lower(b@)[i as int]);
            }
            return false;
        }
        proof {
            assert(ascii_lower(a@)[i as int] == ascii_lower(b@)[i as int]);
        }
        i = i + 1;
    }
    proof {
        assert(ascii_lower(a@) =~= ascii_lower(b@));
    }
    true
}

/// `s` ends with `suffix`, up to ASCII case.
pub fn ends_with_ignore_ascii(s: &str, suffix: &str) -> (r: bool)
    ensures
        r == ends_with(ascii_lower(s@), ascii_lower(suffix@)),
{
    let sn = s.unicode_len();
    let fn_: usize = suffix.unicode_len();
    if fn_ > sn {
        return false;
    }
    let off: usize = sn - fn_;
    let mut i: usize = 0;
    while i < fn_
        invariant
            i <= fn_,
            fn_ <= sn,
            off == sn - fn_,
            sn == s@.len() && fn_ == suffix@.len(),
            forall|j: int|
                0 <= j < i ==> ascii_lower(s@)[off + j] == ascii_lower(suffix@)[j],
        decreases fn_ - i,
    {
        let ca = lower_char(s.get_char(off + i));
        let cb = lower_char(suffix.get_char(i));
        if ca != cb {
            proof {
                let la = ascii_lower(s@);
                let lb = ascii_lower(suffix@);
                assert(la.subrange(la.len() - lb.len(), la.len() as int)[i as int] == la[off + i]);
            }
            return false;
        }
        i = i + 1;
    }
    proof {
        let la = ascii_lower(s@);
        let lb = ascii_lower(suffix@);
        assert(la.subrange(la.len() - lb.len(), la.len() as int) =~= lb);
    }
    true
}

/// `s` begins with `prefix`, up to ASCII case.
pub fn begins_with_ignore_ascii(s: &str, prefix: &str) -> (r: bool)
    ensures
        r == begins_with(ascii_lower(s@), ascii_lower(prefix@)),
{
    let sn = s.unicode_len();
    let pn = prefix.unicode_len();
    if pn > sn {
        return false;
    }
    let mut i: usize = 0;
    while i < pn
        invariant
            i <= pn,
            pn <= sn,
            sn == s@.len() && pn == prefix@.len(),
            forall|j: int| 0 <= j < i ==> ascii_lower(s@)[j] == ascii_lower(prefix@)[j],
        decreases pn - i,
    {
        let ca = lower_char(s.get_char(i));
        let cb = lower_char(prefix.get_char(i));
        if ca != cb {
            proof {
                let la = ascii_lower(s@);
                let lb = ascii_lower(prefix@);
                assert(la.subrange(0, lb.len() as int)[i as int] == la[i as int]);
            }
            return false;
        }
        i = i + 1;
    }
    proof {
        let la = ascii_lower(s@);
        let lb = ascii_lower(prefix@);
        assert(la.subrange(0, lb.len() as int) =~= lb);
    }
    true
}

/// Whether the characters of `s` starting at `off` spell `sub`, up to ASCII
/// case.
fn matches_at(s: &str, off: usize, sub: &str) -> (r: bool)
    requires
        off + sub@.len() <= s@.len(),
    ensures
        r == (ascii_lower(s@).subrange(off as int, off + ascii_lower(sub@).len()) == ascii_lower(
            sub@,
        )),
{
    let n = sub.unicode_len();
    let sn = s.unicode_len();
    let mut i: usize = 0;
    while i < n
        invariant
            i <= n,
            n == sub@.len(),
            sn == s@.len(),
            off + n <= sn,
            forall|j: int| 0 <= j < i ==> ascii_lower(s@)[off + j] == ascii_lower(sub@)[j],
        decreases n - i,
    {
        let ca = lower_char(s.get_char(off + i));
        let cb = lower_char(sub.get_char(i));
        if ca != cb {
            proof {
                let la = ascii_lower(s@);
                let lb = ascii_lower(sub@);
                assert(la.subrange(off as int, off + lb.len())[i as int] == la[off + i]);
            }
            return false;
        }
        i = i + 1;
    }
    proof {
        let la = ascii_lower(s@);
        let lb = ascii_lower(sub@);
        assert(la.subrange(off as int, off + lb.len()) =~= lb);
    }
    true
}

/// `sub` occurs somewhere in `s`, up to ASCII case.
pub fn contains_ignore_ascii(s: &str, sub: &str) -> (r: bool)
    ensures
        r == contains_seq(ascii_lower(s@), ascii_lower(sub@)),
{
    let sn = s.unicode_len();
    let bn = sub.unicode_len();
    if bn > sn {
        proof {
            assert(!contains_seq(ascii_lower(s@), ascii_lower(sub@)));
        }
        return false;
    }
    if bn == 0 {
        proof {
            let la = ascii_lower(s@);
            let lb = ascii_lower(sub@);
            let z: int = 0;
            assert(la.subrange(z, z + lb.len()) =~= lb);
            assert(contains_seq(la, lb));
        }
        return true;
    }
    let mut k: usize = 0;
    while k <= sn - bn
        invariant
            k <= sn - bn + 1,
            0 < bn <= sn,
            sn == s@.len() && bn == sub@.len(),
            forall|j: int|
                0 <= j < k ==> #[trigger] ascii_lower(s@).subrange(j, j + ascii_lower(sub@).len())
                    != ascii_lower(sub@),
        decreases sn - bn + 1 - k,
    {
        if matches_at(s, k, sub) {
            proof {
                let la = ascii_lower(s@);
                let lb = ascii_lower(sub@);
                assert(0 <= k as int <= la.len() - lb.len() && la.subrange(
                    k as int,
                    k + lb.len(),
                ) == lb);
            }
            return true;
        }
        k = k + 1;
    }
    false
}

} // verus!
