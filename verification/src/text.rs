//! Characters, comma-separated lists and number formats of text.
use vstd::prelude::*;
use vstd::utf8::{decode_utf8, valid_utf8};

verus! {

/// `String::push`: appends one character, as its documentation says.
pub assume_specification[ String::push ](s: &mut String, ch: char)
    ensures
        final(s)@ == old(s)@.push(ch),
;

/// The texts of a list of strings.
pub open spec fn texts(list: Seq<String>) -> Seq<Seq<char>> {
    Seq::new(list.len(), |i: int| list[i]@)
}

/// The texts of a list of character vectors.
pub open spec fn char_texts(list: Seq<Vec<char>>) -> Seq<Seq<char>> {
    Seq::new(list.len(), |i: int| list[i]@)
}

/// The parts of `s` between the occurrences of `sep`: one more than `sep` occurs.
pub open spec fn split_on(s: Seq<char>, sep: char) -> Seq<Seq<char>>
    decreases s.len(),
{
    if s.len() == 0 {
        seq![Seq::empty()]
    } else {
        let parts = split_on(s.drop_last(), sep);
        if s.last() == sep {
            parts.push(Seq::empty())
        } else {
            parts.drop_last().push(parts.last().push(s.last()))
        }
    }
}

/// The texts in `parts`, with `sep` between each and the next.
pub open spec fn join_with(parts: Seq<Seq<char>>, sep: char) -> Seq<char>
    decreases parts.len(),
{
    if parts.len() == 0 {
        Seq::empty()
    } else if parts.len() == 1 {
        parts[0]
    } else {
        join_with(parts.drop_last(), sep).push(sep) + parts.last()
    }
}

/// Whether `sub` occurs in `s` as consecutive characters.
pub open spec fn occurs_in(sub: Seq<char>, s: Seq<char>) -> bool {
    exists|i: int| occurs_at(sub, s, i)
}

/// Whether `sub` occurs in `s` from position `i` on.
pub open spec fn occurs_at(sub: Seq<char>, s: Seq<char>, i: int) -> bool {
    0 <= i <= s.len() - sub.len() && s.subrange(i, i + sub.len()) == sub
}

/// Splitting gives at least one part, and no part holds the separator.
pub proof fn law_split_parts(s: Seq<char>, sep: char)
    ensures
        split_on(s, sep).len() >= 1,
        forall|i: int|
            0 <= i < split_on(s, sep).len() ==> !(#[trigger] split_on(s, sep)[i]).contains(sep),
    decreases s.len(),
{
    if s.len() > 0 {
        law_split_parts(s.drop_last(), sep);
        let parts = split_on(s.drop_last(), sep);
        assert forall|i: int| 0 <= i < split_on(s, sep).len() implies !(#[trigger] split_on(
            s,
            sep,
        )[i]).contains(sep) by {
            let p = split_on(s, sep)[i];
            if s.last() == sep {
                if i < parts.len() {
                    assert(p == parts[i]);
                }
            } else {
                if i < parts.len() - 1 {
                    assert(p == parts[i]);
                } else {
                    assert(p == parts.last().push(s.last()));
                    assert(!parts[parts.len() - 1].contains(sep));
                    assert forall|k: int| 0 <= k < p.len() implies p[k] != sep by {
                        if k < parts.last().len() {
                            assert(parts.last()[k] == p[k]);
                        }
                    }
                }
            }
        }
    }
}

/// Joining the parts of a split gives the text back.
pub proof fn law_join_of_split(s: Seq<char>, sep: char)
    ensures
        join_with(split_on(s, sep), sep) == s,
    decreases s.len(),
{
    if s.len() > 0 {
        law_join_of_split(s.drop_last(), sep);
        law_split_parts(s.drop_last(), sep);
        let parts = split_on(s.drop_last(), sep);
        let all = split_on(s, sep);
        if s.last() == sep {
            assert(all.drop_last() =~= parts);
            assert(join_with(all, sep) =~= s);
        } else {
            assert(all.drop_last() =~= parts.drop_last());
            assert(join_with(all, sep) =~= join_with(parts, sep).push(s.last()));
            assert(s =~= s.drop_last().push(s.last()));
        }
    }
}

proof fn lemma_split_of_append(a: Seq<char>, b: Seq<char>, sep: char)
    requires
        !b.contains(sep),
    ensures
        split_on(a.push(sep) + b, sep) == split_on(a, sep).push(b),
        a.len() == 0 ==> split_on(b, sep) == seq![b],
    decreases b.len(),
{
    let s = a.push(sep) + b;
    if b.len() == 0 {
        assert(s =~= a.push(sep));
        assert(s.drop_last() =~= a);
        assert(b =~= Seq::empty());
    } else {
        let c = b.drop_last();
        assert forall|k: int| 0 <= k < c.len() implies c[k] != sep by {
            assert(b[k] == c[k]);
        }
        assert(b[b.len() - 1] != sep);
        lemma_split_of_append(a, c, sep);
        assert(s.drop_last() =~= a.push(sep) + c);
        assert(c.push(b.last()) =~= b);
        let parts = split_on(a, sep).push(c);
        assert(parts.drop_last() =~= split_on(a, sep));
        assert(split_on(s, sep) =~= split_on(a, sep).push(b));
        if a.len() == 0 {
            assert(split_on(b, sep) =~= seq![b]);
        }
    }
}

/// Splitting joined parts gives the parts back, where there is one at least and none holds the
/// separator.
pub proof fn law_split_of_join(parts: Seq<Seq<char>>, sep: char)
    requires
        parts.len() >= 1,
        forall|i: int| 0 <= i < parts.len() ==> !(#[trigger] parts[i]).contains(sep),
    ensures
        split_on(join_with(parts, sep), sep) == parts,
    decreases parts.len(),
{
    if parts.len() == 1 {
        lemma_split_of_append(Seq::empty(), parts[0], sep);
        assert(parts =~= seq![parts[0]]);
    } else {
        let front = parts.drop_last();
        assert forall|i: int| 0 <= i < front.len() implies !(#[trigger] front[i]).contains(sep) by {
            assert(front[i] == parts[i]);
        }
        law_split_of_join(front, sep);
        lemma_split_of_append(join_with(front, sep), parts[parts.len() - 1], sep);
        assert(parts =~= front.push(parts.last()));
    }
}

/// The characters of `s`, in order.
pub fn chars_of(s: &str) -> (r: Vec<char>)
    ensures
        r@ == s@,
{
    let mut out: Vec<char> = Vec::new();
    for c in it: s.chars()
        invariant
            out@ == it.seq().take(it.index()),
            it.seq() == s@,
    {
        out.push(c);
    }
    out
}

/// Whether the two texts are equal.
pub fn same_text(a: &str, b: &str) -> (r: bool)
    ensures
        r == (a@ == b@),
{
    let x = chars_of(a);
    let y = chars_of(b);
    x.len() == y.len() && starts_with(&x, &y)
}

/// Whether `s` begins with the characters of `prefix`.
pub fn starts_with(s: &[char], prefix: &[char]) -> (r: bool)
    ensures
        r == prefix@.is_prefix_of(s@),
        s@.len() == prefix@.len() ==> r == (s@ == prefix@),
{
    if s.len() < prefix.len() {
        return false;
    }
    let mut i: usize = 0;
    while i < prefix.len()
        invariant
            i <= prefix@.len() <= s@.len(),
            forall|j: int| 0 <= j < i ==> prefix@[j] == s@[j],
        decreases prefix@.len() - i,
    {
        if s[i] != prefix[i] {
            assert(s@.subrange(0, prefix@.len() as int)[i as int] != prefix@[i as int]);
            return false;
        }
        i += 1;
    }
    assert(s@.subrange(0, prefix@.len() as int) =~= prefix@);
    assert(s@.len() == prefix@.len() ==> s@ =~= prefix@);
    true
}

/// Whether `sub` occurs in `s`.
pub fn contains_text(s: &str, sub: &str) -> (r: bool)
    ensures
        r == occurs_in(sub@, s@),
{
    let cs = chars_of(s);
    let needle = chars_of(sub);
    let mut i: usize = 0;
    while i < cs.len() && needle.len() <= cs.len() - i
        invariant
            i <= cs@.len(),
            cs@ == s@,
            needle@ == sub@,
            forall|j: int| 0 <= j < i ==> !occurs_at(sub@, s@, j),
        decreases cs@.len() - i,
    {
        if starts_with(slice_from(&cs, i), &needle) {
            assert(cs@.skip(i as int).subrange(0, needle@.len() as int) =~= s@.subrange(
                i as int,
                i + needle@.len(),
            ));
            assert(occurs_at(sub@, s@, i as int));
            return true;
        }
        proof {
            if occurs_at(sub@, s@, i as int) {
                assert(cs@.skip(i as int).subrange(0, needle@.len() as int) =~= s@.subrange(
                    i as int,
                    i + needle@.len(),
                ));
            }
        }
        i += 1;
    }
    if needle.len() == 0 {
        assert(s@.subrange(s@.len() as int, s@.len() as int) =~= sub@);
        assert(occurs_at(sub@, s@, s@.len() as int));
        return true;
    }
    false
}

/// The characters of `s` from `from` on.
pub fn slice_from(s: &[char], from: usize) -> (r: &[char])
    requires
        from <= s@.len(),
    ensures
        r@ == s@.skip(from as int),
{
    let r = vstd::slice::slice_subrange(s, from, s.len());
    assert(r@ =~= s@.skip(from as int));
    r
}

/// The string of the characters in `chars`.
pub fn string_of(chars: &[char]) -> (r: String)
    ensures
        r@ == chars@,
{
    let mut out = String::new();
    let mut i: usize = 0;
    while i < chars.len()
        invariant
            i <= chars@.len(),
            out@ == chars@.take(i as int),
        decreases chars@.len() - i,
    {
        out.push(chars[i]);
        i += 1;
        assert(chars@.take(i as int) =~= chars@.take(i - 1).push(chars@[i - 1]));
    }
    assert(chars@.take(i as int) =~= chars@);
    out
}

/// The parts of `s` between the occurrences of `sep`.
pub fn split_text(s: &str, sep: char) -> (r: Vec<Vec<char>>)
    ensures
        char_texts(r@) == split_on(s@, sep),
        r@.len() >= 1,
{
    let cs = chars_of(s);
    split_chars(&cs, sep)
}

/// The parts of `cs` between the occurrences of `sep`.
pub fn split_chars(cs: &[char], sep: char) -> (r: Vec<Vec<char>>)
    ensures
        char_texts(r@) == split_on(cs@, sep),
        r@.len() >= 1,
{
    let mut parts: Vec<Vec<char>> = Vec::new();
    let mut part: Vec<char> = Vec::new();
    let mut i: usize = 0;
    assert(char_texts(parts@).push(part@) =~= split_on(cs@.take(0), sep));
    while i < cs.len()
        invariant
            i <= cs@.len(),
            char_texts(parts@).push(part@) == split_on(cs@.take(i as int), sep),
        decreases cs@.len() - i,
    {
        let ghost before = cs@.take(i as int);
        let ghost old_parts = char_texts(parts@);
        let c = cs[i];
        i += 1;
        assert(cs@.take(i as int).drop_last() =~= before);
        assert(old_parts.push(part@).drop_last() =~= old_parts);
        if c == sep {
            let ghost done = part@;
            parts.push(part);
            part = Vec::new();
            assert(char_texts(parts@) =~= old_parts.push(done));
            assert(part@ =~= Seq::empty());
        } else {
            part.push(c);
        }
        assert(char_texts(parts@).push(part@) =~= split_on(cs@.take(i as int), sep));
    }
    assert(cs@.take(i as int) =~= cs@);
    let ghost old_parts = char_texts(parts@);
    let ghost last = part@;
    parts.push(part);
    assert(char_texts(parts@) =~= old_parts.push(last));
    parts
}

/// `String::from_utf8`: the text whose UTF-8 encoding the bytes are, and none where they are not
/// valid UTF-8, as its documentation says.
#[verifier::external_body]
pub(crate) fn utf8_text(bytes: Vec<u8>) -> (r: Option<String>)
    ensures
        match r {
            Some(s) => valid_utf8(bytes@) && s@ == decode_utf8(bytes@),
            None => !valid_utf8(bytes@),
        },
{
    String::from_utf8(bytes).ok()
}

/// The decimal digits of `n`, without leading zeros.
pub open spec fn decimal(n: nat) -> Seq<char>
    decreases n,
{
    if n < 10 {
        seq![decimal_digit(n)]
    } else {
        decimal(n / 10).push(decimal_digit(n % 10))
    }
}

/// The decimal digit of value `d`.
pub open spec fn decimal_digit(d: nat) -> char {
    (48 + d) as char
}

/// Appends the decimal digits of `n`.
pub fn append_decimal(s: &mut String, n: u8)
    ensures
        final(s)@ == old(s)@ + decimal(n as nat),
    decreases n,
{
    if n >= 10 {
        append_decimal(s, n / 10);
    }
    s.push((48 + n % 10) as char);
    assert(s@ =~= old(s)@ + decimal(n as nat));
}

/// The upper-case hexadecimal digit of value `d`.
pub open spec fn hex_digit(d: int) -> char {
    if d < 10 {
        (48 + d) as char
    } else {
        (55 + d) as char
    }
}

/// The four upper-case hexadecimal digits of `n`.
pub open spec fn hex4(n: int) -> Seq<char> {
    seq![
        hex_digit(n / 0x1000),
        hex_digit(n / 0x100 % 0x10),
        hex_digit(n / 0x10 % 0x10),
        hex_digit(n % 0x10),
    ]
}

fn hex_char(d: u8) -> (r: char)
    requires
        d < 16,
    ensures
        r == hex_digit(d as int),
{
    if d < 10 {
        (48 + d) as char
    } else {
        (55 + d) as char
    }
}

/// Appends the four upper-case hexadecimal digits of `n`.
pub fn append_hex4(s: &mut String, n: u16)
    ensures
        final(s)@ == old(s)@ + hex4(n as int),
{
    s.push(hex_char((n / 0x1000) as u8));
    s.push(hex_char((n / 0x100 % 0x10) as u8));
    s.push(hex_char((n / 0x10 % 0x10) as u8));
    s.push(hex_char((n % 0x10) as u8));
    assert(s@ =~= old(s)@ + hex4(n as int));
}

/// A text without the separator is its own only part, and behind a separator one more part
/// begins.
pub proof fn law_split_appends(a: Seq<char>, b: Seq<char>, sep: char)
    requires
        !b.contains(sep),
    ensures
        split_on(b, sep) == seq![b],
        split_on(a.push(sep) + b, sep) == split_on(a, sep).push(b),
{
    lemma_split_of_append(Seq::empty(), b, sep);
    lemma_split_of_append(a, b, sep);
}

/// Joining no part gives no text, joining one gives it, and one more part comes behind a
/// separator.
pub proof fn law_join_appends(parts: Seq<Seq<char>>, part: Seq<char>, sep: char)
    ensures
        join_with(Seq::empty(), sep) == Seq::<char>::empty(),
        parts.len() == 0 ==> join_with(parts.push(part), sep) == part,
        parts.len() > 0 ==> join_with(parts.push(part), sep) == join_with(parts, sep).push(sep)
            + part,
{
    assert(parts.push(part).drop_last() =~= parts);
}

/// A text occurs in another if and only if that is the text with something before and behind it.
pub proof fn law_occurs(before: Seq<char>, sub: Seq<char>, after: Seq<char>, s: Seq<char>)
    ensures
        occurs_in(sub, before + sub + after),
        occurs_in(sub, s) ==> exists|i: int|
            0 <= i <= s.len() - sub.len() && s == s.take(i) + sub + #[trigger] s.skip(
                i + sub.len(),
            ),
{
    let whole = before + sub + after;
    let at = before.len() as int;
    assert(whole.subrange(at, at + sub.len()) =~= sub);
    assert(occurs_at(sub, whole, at));
    if occurs_in(sub, s) {
        let i = choose|i: int| occurs_at(sub, s, i);
        assert(s =~= s.take(i) + s.subrange(i, i + sub.len()) + s.skip(i + sub.len()));
    }
}

/// The digits of a number below ten are one, and multiplying by ten and adding a digit appends
/// it.
pub proof fn law_decimal_digits(n: nat, d: nat)
    requires
        d < 10,
    ensures
        decimal(d) == seq!["0123456789"@[d as int]],
        n > 0 ==> decimal(10 * n + d) == decimal(n).push("0123456789"@[d as int]),
{
    reveal_strlit("0123456789");
    assert(decimal_digit(d) == "0123456789"@[d as int]);
    if n > 0 {
        assert((10 * n + d) / 10 == n);
        assert((10 * n + d) % 10 == d);
    }
}

/// Four hexadecimal digits are upper-case and stand for their number.
pub proof fn law_hex_digits(a: int, b: int, c: int, d: int)
    requires
        0 <= a < 16,
        0 <= b < 16,
        0 <= c < 16,
        0 <= d < 16,
    ensures
        hex4(4096 * a + 256 * b + 16 * c + d) == seq![
            "0123456789ABCDEF"@[a],
            "0123456789ABCDEF"@[b],
            "0123456789ABCDEF"@[c],
            "0123456789ABCDEF"@[d],
        ],
{
    let n = 4096 * a + 256 * b + 16 * c + d;
    lemma_hex_digit(a);
    lemma_hex_digit(b);
    lemma_hex_digit(c);
    lemma_hex_digit(d);
    assert(n / 0x1000 == a);
    assert(n / 0x100 == 16 * a + b);
    assert(n / 0x10 == 256 * a + 16 * b + c);
    assert(n / 0x100 % 0x10 == b);
    assert(n / 0x10 % 0x10 == c);
    assert(n % 0x10 == d);
}

proof fn lemma_hex_digit(d: int)
    requires
        0 <= d < 16,
    ensures
        hex_digit(d) == "0123456789ABCDEF"@[d],
{
    reveal_strlit("0123456789ABCDEF");
}

/// The texts of a list are those of its elements, one for one.
pub proof fn law_texts(list: Seq<String>, chars: Seq<Vec<char>>, i: int)
    ensures
        texts(list).len() == list.len(),
        0 <= i < list.len() ==> texts(list)[i] == list[i]@,
        char_texts(chars).len() == chars.len(),
        0 <= i < chars.len() ==> char_texts(chars)[i] == chars[i]@,
{
}

} // verus!
