use vstd::prelude::*;

verus! {

/// The texts of a sequence of byte vectors.
pub open spec fn texts(v: Seq<Vec<u8>>) -> Seq<Seq<u8>> {
    v.map_values(|x: Vec<u8>| x@)
}

/// The pieces of the first `n` bytes of `s` between occurrences of `sep`: one more piece
/// than there are separators, empty pieces included.
pub open spec fn split_prefix(s: Seq<u8>, sep: u8, n: int) -> Seq<Seq<u8>>
    decreases n,
{
    if n <= 0 {
        seq![Seq::empty()]
    } else {
        let p = split_prefix(s, sep, n - 1);
        if s[n - 1] == sep {
            p.push(Seq::empty())
        } else {
            p.update(p.len() - 1, p.last().push(s[n - 1]))
        }
    }
}

/// The pieces of `s` between occurrences of `sep`.
pub open spec fn split(s: Seq<u8>, sep: u8) -> Seq<Seq<u8>> {
    split_prefix(s, sep, s.len() as int)
}

/// An ASCII whitespace byte: tab, line feed, vertical tab, form feed, carriage return or space.
pub open spec fn is_space(b: u8) -> bool {
    b == 32 || (9 <= b && b <= 13)
}

pub open spec fn trim_front(s: Seq<u8>) -> Seq<u8>
    decreases s.len(),
{
    if s.len() > 0 && is_space(s[0]) {
        trim_front(s.drop_first())
    } else {
        s
    }
}

pub open spec fn trim_back(s: Seq<u8>) -> Seq<u8>
    decreases s.len(),
{
    if s.len() > 0 && is_space(s.last()) {
        trim_back(s.drop_last())
    } else {
        s
    }
}

/// `s` without its leading and trailing whitespace.
pub open spec fn trim(s: Seq<u8>) -> Seq<u8> {
    trim_back(trim_front(s))
}

pub open spec fn is_digit(b: u8) -> bool {
    48 <= b && b <= 57
}

/// The number that the decimal digits `d` spell.
pub open spec fn digits_value(d: Seq<u8>) -> nat
    decreases d.len(),
{
    if d.len() == 0 {
        0
    } else {
        digits_value(d.drop_last()) * 10 + (d.last() - 48) as nat
    }
}

/// `t` without one leading plus sign.
pub open spec fn unsigned_part(t: Seq<u8>) -> Seq<u8> {
    if t.len() > 0 && t[0] == 43 {
        t.drop_first()
    } else {
        t
    }
}

/// The unsigned machine integer that `t` spells: an optional plus sign and at least one
/// decimal digit, of a value that fits in `usize`.
pub open spec fn parse_index(t: Seq<u8>) -> Option<nat> {
    let d = unsigned_part(t);
    if d.len() > 0 && (forall|i: int| 0 <= i < d.len() ==> is_digit(#[trigger] d[i]))
        && digits_value(d) <= usize::MAX {
        Some(digits_value(d))
    } else {
        None
    }
}

/// Splitting always yields at least one piece.
pub proof fn lemma_split_prefix_nonempty(s: Seq<u8>, sep: u8, n: int)
    ensures
        split_prefix(s, sep, n).len() >= 1,
    decreases n,
{
    if n > 0 {
        lemma_split_prefix_nonempty(s, sep, n - 1);
    }
}

/// Splits `s` at each occurrence of `sep`.
pub fn split_bytes(s: &Vec<u8>, sep: u8) -> (r: Vec<Vec<u8>>)
    ensures
        texts(r@) == split(s@, sep),
{
    let mut pieces: Vec<Vec<u8>> = Vec::new();
    let mut cur: Vec<u8> = Vec::new();
    let mut i: usize = 0;
    while i < s.len()
        invariant
            i <= s@.len(),
            texts(pieces@).push(cur@) == split_prefix(s@, sep, i as int),
        decreases s@.len() - i,
    {
        proof {
            lemma_split_prefix_nonempty(s@, sep, i as int);
        }
        let b = s[i];
        if b == sep {
            let done = cur;
            pieces.push(done);
            cur = Vec::new();
        } else {
            cur.push(b);
        }
        i += 1;
        assert(texts(pieces@).push(cur@) =~= split_prefix(s@, sep, i as int));
    }
    pieces.push(cur);
    assert(texts(pieces@) =~= split(s@, sep));
    pieces
}

proof fn lemma_trim_front_step(s: Seq<u8>, i: int)
    requires
        0 <= i < s.len(),
        is_space(s[i]),
    ensures
        trim_front(s.subrange(i, s.len() as int)) == trim_front(s.subrange(i + 1, s.len() as int)),
{
    assert(s.subrange(i, s.len() as int).drop_first() =~= s.subrange(i + 1, s.len() as int));
}

proof fn lemma_trim_back_step(s: Seq<u8>, j: int)
    requires
        0 < j <= s.len(),
        is_space(s[j - 1]),
    ensures
        trim_back(s.subrange(0, j)) == trim_back(s.subrange(0, j - 1)),
{
    assert(s.subrange(0, j).drop_last() =~= s.subrange(0, j - 1));
}

/// `s` without its leading and trailing whitespace.
pub fn trim_bytes(s: &Vec<u8>) -> (r: Vec<u8>)
    ensures
        r@ == trim(s@),
{
    let n = s.len();
    let mut i: usize = 0;
    assert(s@.subrange(0, n as int) =~= s@);
    while i < n && is_space_byte(s[i])
        invariant
            i <= n == s@.len(),
            trim_front(s@.subrange(i as int, n as int)) == trim_front(s@),
        decreases n - i,
    {
        proof {
            lemma_trim_front_step(s@, i as int);
        }
        i += 1;
    }
    let ghost front = s@.subrange(i as int, n as int);
    assert(trim_front(front) == front);
    let mut j: usize = n;
    assert(front.subrange(0, (j - i) as int) =~= front);
    while j > i && is_space_byte(s[j - 1])
        invariant
            i <= j <= n == s@.len(),
            front == s@.subrange(i as int, n as int),
            trim_back(front.subrange(0, (j - i) as int)) == trim_back(front),
        decreases j,
    {
        proof {
            lemma_trim_back_step(front, (j - i) as int);
        }
        j -= 1;
    }
    let mut r: Vec<u8> = Vec::new();
    let mut k: usize = i;
    while k < j
        invariant
            i <= k <= j <= n == s@.len(),
            r@ == s@.subrange(i as int, k as int),
        decreases j - k,
    {
        r.push(s[k]);
        k += 1;
        assert(r@ =~= s@.subrange(i as int, k as int));
    }
    assert(front.subrange(0, (j - i) as int) =~= r@);
    r
}

fn is_space_byte(b: u8) -> (r: bool)
    ensures
        r == is_space(b),
{
    b == 32 || (9 <= b && b <= 13)
}

proof fn lemma_digits_value_monotone(d: Seq<u8>, i: int, j: int)
    requires
        0 <= i <= j <= d.len(),
    ensures
        digits_value(d.take(i)) <= digits_value(d.take(j)),
    decreases j - i,
{
    if i < j {
        lemma_digits_value_monotone(d, i, j - 1);
        assert(d.take(j).drop_last() =~= d.take(j - 1));
    }
}

/// Reads an unsigned machine integer written in decimal, with an optional plus sign.
pub fn parse_index_bytes(t: &Vec<u8>) -> (r: Option<usize>)
    ensures
        match r {
            Some(v) => parse_index(t@) == Some(v as nat),
            None => parse_index(t@) == None::<nat>,
        },
{
    let n = t.len();
    let start: usize = if n > 0 && t[0] == 43 {
        1
    } else {
        0
    };
    let ghost d = unsigned_part(t@);
    assert(d =~= t@.subrange(start as int, n as int));
    if start == n {
        return None;
    }
    let mut value: usize = 0;
    let mut k: usize = start;
    while k < n
        invariant
            start <= k <= n == t@.len(),
            d == t@.subrange(start as int, n as int),
            d == unsigned_part(t@),
            forall|i: int| 0 <= i < k - start ==> is_digit(#[trigger] d[i]),
            value == digits_value(d.take(k - start)),
        decreases n - k,
    {
        let b = t[k];
        assert(d[k - start] == b);
        if b < 48 || b > 57 {
            assert(!is_digit(d[k - start]));
            return None;
        }
        assert(d.take(k - start + 1).drop_last() =~= d.take(k - start));
        assert(d.take(k - start + 1).last() == b);
        assert(digits_value(d.take(k - start + 1)) == value * 10 + (b - 48) as nat);
        match value.checked_mul(10) {
            None => {
                proof {
                    lemma_digits_value_monotone(d, k - start + 1, d.len() as int);
                    assert(d.take(d.len() as int) =~= d);
                }
                return None;
            },
            Some(m) => match m.checked_add((b - 48) as usize) {
                None => {
                    proof {
                        lemma_digits_value_monotone(d, k - start + 1, d.len() as int);
                        assert(d.take(d.len() as int) =~= d);
                    }
                    return None;
                },
                Some(v) => {
                    value = v;
                },
            },
        }
        k += 1;
    }
    assert(d.take(k - start) =~= d);
    Some(value)
}

} // verus!
