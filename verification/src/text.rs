//! Strings as sequences of characters: hexadecimal and decimal digits, joining,
//! file names and suffixes.
use vstd::prelude::*;

verus! {

/// `String::push_str` appends the characters of the other string.
pub assume_specification[ String::push_str ](s: &mut String, text: &str)
    ensures
        final(s)@ == old(s)@ + text@,
;

/// `String::push` appends one character.
pub assume_specification[ String::push ](s: &mut String, c: char)
    ensures
        final(s)@ == old(s)@.push(c),
;

/// The lower-case hexadecimal digit of a number under sixteen.
pub open spec fn hex_char(d: int) -> char {
    if d < 10 {
        (d + 48) as char
    } else {
        (d + 87) as char
    }
}

/// Different numbers under sixteen have different digits.
pub proof fn hex_char_tells_apart(x: int, y: int)
    requires
        0 <= x < 16,
        0 <= y < 16,
        hex_char(x) == hex_char(y),
    ensures
        x == y,
{
    assert((x + 48) as char as int == x + 48);
    assert((x + 87) as char as int == x + 87);
    assert((y + 48) as char as int == y + 48);
    assert((y + 87) as char as int == y + 87);
}

/// The last `n` hexadecimal digits of `v`.
pub open spec fn hex_digits(v: nat, n: nat) -> Seq<char>
    decreases n,
{
    if n == 0 {
        Seq::empty()
    } else {
        hex_digits(v / 16, (n - 1) as nat).push(hex_char((v % 16) as int))
    }
}

/// Two hexadecimal digits for each byte.
pub open spec fn hex_of(bytes: Seq<u8>) -> Seq<char> {
    Seq::new(
        bytes.len() * 2,
        |i: int|
            hex_char(
                if i % 2 == 0 {
                    bytes[i / 2] as int / 16
                } else {
                    bytes[i / 2] as int % 16
                },
            ),
    )
}

/// What stands after the last slash, the whole text when there is none.
pub open spec fn file_name(s: Seq<char>) -> Seq<char>
    decreases s.len(),
{
    if s.len() == 0 {
        s
    } else if s.last() == '/' {
        Seq::empty()
    } else {
        file_name(s.drop_last()).push(s.last())
    }
}

/// The text without the suffix, when it ends in the suffix.
pub open spec fn without_suffix(s: Seq<char>, suffix: Seq<char>) -> Option<Seq<char>> {
    if suffix.len() <= s.len() && s.skip(s.len() - suffix.len()) == suffix {
        Some(s.take(s.len() - suffix.len()))
    } else {
        None
    }
}

/// A path's file name is what was put behind a slash, when that holds no slash.
pub proof fn file_name_of_joined(dir: Seq<char>, name: Seq<char>)
    requires
        !name.contains('/'),
    ensures
        file_name(dir.push('/') + name) == name,
    decreases name.len(),
{
    let s = dir.push('/') + name;
    if name.len() == 0 {
        assert(s =~= dir.push('/'));
        assert(s.last() == '/');
    } else {
        let shorter = name.drop_last();
        assert(!shorter.contains('/')) by {
            if shorter.contains('/') {
                let i = choose|i: int| 0 <= i < shorter.len() && shorter[i] == '/';
                assert(name[i] == '/');
            }
        }
        file_name_of_joined(dir, shorter);
        assert(s.drop_last() =~= dir.push('/') + shorter);
        assert(s.last() == name.last());
        assert(name.last() != '/') by {
            assert(name.contains(name.last()));
        }
        assert(name =~= shorter.push(name.last()));
    }
}

/// Taking a suffix off again gives back what it was put behind.
pub proof fn suffix_round_trip(stem: Seq<char>, suffix: Seq<char>)
    ensures
        without_suffix(stem + suffix, suffix) == Some(stem),
{
    let s = stem + suffix;
    assert(s.skip(s.len() - suffix.len()) =~= suffix);
    assert(s.take(s.len() - suffix.len()) =~= stem);
}

/// The characters of a text, one by one.
pub fn char_list(s: &str) -> (out: Vec<char>)
    ensures
        out@ == s@,
{
    let mut out: Vec<char> = Vec::new();
    for c in it: s.chars()
        invariant
            out@ == it.seq().take(it.index() as int),
            it.seq() == s@,
    {
        out.push(c);
        assert(out@ =~= it.seq().take(it.index() + 1));
    }
    assert(out@ =~= s@);
    out
}

/// A string of `chars[start..end]`.
pub fn string_of(chars: &Vec<char>, start: usize, end: usize) -> (s: String)
    requires
        start <= end <= chars.len(),
    ensures
        s@ == chars@.subrange(start as int, end as int),
{
    let mut s = String::new();
    assert(s@ =~= Seq::<char>::empty());
    let mut i: usize = start;
    while i < end
        invariant
            start <= i <= end <= chars.len(),
            s@ == chars@.subrange(start as int, i as int),
        decreases end - i,
    {
        s.push(chars[i]);
        i = i + 1;
        assert(s@ =~= chars@.subrange(start as int, i as int));
    }
    s
}

/// The stem of a path's file name, when that ends in `suffix`.
pub fn file_stem(path: &str, suffix: &str) -> (stem: Option<String>)
    ensures
        match without_suffix(file_name(path@), suffix@) {
            Some(text) => stem is Some && stem->0@ == text,
            None => stem is None,
        },
{
    let chars = char_list(path);
    let tail = char_list(suffix);
    let n: usize = chars.len();
    let mut start: usize = n;
    assert(chars@.take(n as int) =~= chars@);
    assert(file_name(chars@) + chars@.skip(n as int) =~= file_name(chars@));
    while start > 0 && chars[start - 1] != '/'
        invariant
            start <= n,
            n == chars.len(),
            chars@ == path@,
            file_name(chars@) == file_name(chars@.take(start as int)) + chars@.skip(start as int),
        decreases start,
    {
        proof {
            let shorter = chars@.take(start as int);
            assert(shorter.drop_last() =~= chars@.take(start - 1));
            assert(chars@.skip(start - 1) =~= seq![chars@[start - 1]] + chars@.skip(start as int));
            assert(file_name(shorter) == file_name(chars@.take(start - 1)).push(chars@[start - 1]));
            assert(file_name(chars@.take(start - 1)) + chars@.skip(start - 1) =~= file_name(shorter)
                + chars@.skip(start as int));
        }
        start = start - 1;
    }
    assert(file_name(chars@.take(start as int)) =~= Seq::<char>::empty());
    let ghost name = file_name(path@);
    assert(name =~= chars@.skip(start as int));
    let m: usize = tail.len();
    if m > n - start {
        return None;
    }
    let cut: usize = n - m;
    let mut k: usize = 0;
    while k < m
        invariant
            k <= m,
            m == tail.len(),
            m <= n - start,
            n == chars.len(),
            cut == n - m,
            name == chars@.skip(start as int),
            name == file_name(path@),
            tail@ == suffix@,
            forall|q: int| 0 <= q < k ==> chars@[cut + q] == tail@[q],
        decreases m - k,
    {
        if chars[cut + k] != tail[k] {
            assert(name.skip(name.len() - m)[k as int] != suffix@[k as int]);
            return None;
        }
        k = k + 1;
    }
    assert(name.skip(name.len() - m) =~= suffix@);
    assert(name.take(name.len() - m) =~= chars@.subrange(start as int, cut as int));
    Some(string_of(&chars, start, cut))
}

/// Joins three texts.
pub fn join3(a: &str, b: &str, c: &str) -> (s: String)
    ensures
        s@ == a@ + b@ + c@,
{
    let mut s = String::new();
    s.push_str(a);
    s.push_str(b);
    s.push_str(c);
    assert(s@ =~= a@ + b@ + c@);
    s
}

/// Compares two texts.
pub fn same_text(a: &str, b: &str) -> (same: bool)
    ensures
        same == (a@ == b@),
{
    let x = char_list(a);
    let y = char_list(b);
    if x.len() != y.len() {
        return false;
    }
    let mut i: usize = 0;
    while i < x.len()
        invariant
            x@ == a@,
            y@ == b@,
            x.len() == y.len(),
            i <= x.len(),
            forall|k: int| 0 <= k < i ==> x@[k] == y@[k],
        decreases x.len() - i,
    {
        if x[i] != y[i] {
            return false;
        }
        i = i + 1;
    }
    assert(a@ =~= b@);
    true
}

} // verus!
