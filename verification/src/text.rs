//! Text building blocks: numbers in words, comparison, splitting and padding.
use vstd::prelude::*;

verus! {

/// `String::push` appends one character.
pub assume_specification[ String::push ](s: &mut String, c: char)
    ensures
        final(s)@ == old(s)@.push(c),
;

/// `==` on string slices: `true` exactly when both hold the same characters.
#[verifier::external_body]
pub(crate) fn same_text(a: &str, b: &str) -> (same: bool)
    ensures
        same == (a@ == b@),
{
    a == b
}

/// `<` on string slices: the documented order of `str`, which is that of the
/// code points, position by position.
#[verifier::external_body]
pub(crate) fn text_before(a: &str, b: &str) -> (before: bool)
    ensures
        before == text_lt(a@, b@),
{
    a < b
}

/// `a` stands before `b` in the order of code points.
pub open spec fn text_lt(a: Seq<char>, b: Seq<char>) -> bool
    decreases a.len(),
{
    if b.len() == 0 {
        false
    } else if a.len() == 0 {
        true
    } else if a[0] != b[0] {
        (a[0] as int) < (b[0] as int)
    } else {
        text_lt(a.drop_first(), b.drop_first())
    }
}

/// The order of code points is total: of two texts one comes first, or they
/// are the same.
pub proof fn lemma_text_order_total(a: Seq<char>, b: Seq<char>)
    ensures
        text_lt(a, b) || text_lt(b, a) || a == b,
        !(text_lt(a, b) && text_lt(b, a)),
        !text_lt(a, a),
    decreases a.len(),
{
    if a.len() == 0 || b.len() == 0 {
        assert(a.len() == 0 && b.len() == 0 ==> a =~= b);
        if a.len() > 0 {
            lemma_text_order_total(a.drop_first(), a.drop_first());
        }
    } else {
        if a[0] == b[0] {
            lemma_text_order_total(a.drop_first(), b.drop_first());
            if a.drop_first() == b.drop_first() {
                assert(a =~= seq![a[0]] + a.drop_first());
                assert(b =~= seq![b[0]] + b.drop_first());
            }
        } else {
            lemma_text_order_total(a.drop_first(), a.drop_first());
        }
    }
}

/// The order of code points is transitive.
pub proof fn lemma_text_order_transitive(a: Seq<char>, b: Seq<char>, c: Seq<char>)
    requires
        text_lt(a, b),
        text_lt(b, c),
    ensures
        text_lt(a, c),
    decreases a.len(),
{
    if a.len() > 0 && a[0] == b[0] && b[0] == c[0] {
        lemma_text_order_transitive(a.drop_first(), b.drop_first(), c.drop_first());
    }
}

/// The decimal digit for a number below ten.
pub open spec fn digit(d: nat) -> char {
    ((48 + d) as u8) as char
}

/// A number in decimal, without leading zeros.
pub open spec fn decimal(n: nat) -> Seq<char>
    decreases n,
{
    if n < 10 {
        seq![digit(n)]
    } else {
        decimal(n / 10).push(digit(n % 10))
    }
}

/// A number in decimal.
pub fn decimal_text(n: u64) -> (text: String)
    ensures
        text@ == decimal(n as nat),
    decreases n,
{
    let mut text: String = if n < 10 { String::new() } else { decimal_text(n / 10) };
    let low: u8 = (n % 10) as u8;
    text.push((48 + low) as char);
    proof {
        if n < 10 {
            assert(text@ =~= seq![digit(n as nat)]);
        }
    }
    text
}

/// A signed number in decimal.
pub open spec fn signed_decimal(v: int) -> Seq<char> {
    if v < 0 {
        "-"@ + decimal((-v) as nat)
    } else {
        decimal(v as nat)
    }
}

/// A signed number in decimal.
pub fn signed_decimal_text(v: i64) -> (text: String)
    ensures
        text@ == signed_decimal(v as int),
{
    if v < 0 {
        let size: i128 = -(v as i128);
        joined("-", decimal_text(size as u64).as_str())
    } else {
        decimal_text(v as u64)
    }
}

/// The characters of a text.
pub fn chars_of(s: &str) -> (chars: Vec<char>)
    ensures
        chars@ == s@,
{
    let mut chars: Vec<char> = Vec::new();
    for c in it: s.chars()
        invariant
            it.seq() == s@,
            chars@ == it.seq().take(it.index() as int),
    {
        chars.push(c);
    }
    chars
}

/// The text made of the characters from `from` up to `to`.
pub fn text_of(chars: &[char], from: usize, to: usize) -> (text: String)
    requires
        from <= to <= chars@.len(),
    ensures
        text@ == chars@.subrange(from as int, to as int),
{
    let mut text: String = String::new();
    for i in from..to
        invariant
            from <= to <= chars@.len(),
            text@ == chars@.subrange(from as int, i as int),
    {
        text.push(chars[i]);
        assert(chars@.subrange(from as int, i as int).push(chars@[i as int]) =~= chars@.subrange(
            from as int,
            i as int + 1,
        ));
    }
    text
}

/// The texts of some strings.
pub open spec fn texts(strings: Seq<String>) -> Seq<Seq<char>> {
    Seq::new(strings.len(), |i: int| strings[i]@)
}

/// One text behind the other.
pub fn joined(a: &str, b: &str) -> (text: String)
    ensures
        text@ == a@ + b@,
{
    let mut text: String = a.to_owned();
    text.append(b);
    text
}

/// Copies of some strings.
pub fn copied(strings: &Vec<String>) -> (copies: Vec<String>)
    ensures
        texts(copies@) == texts(strings@),
{
    let mut copies: Vec<String> = Vec::with_capacity(strings.len());
    for i in 0..strings.len()
        invariant
            copies@.len() == i,
            forall|k: int| 0 <= k < i ==> (#[trigger] copies@[k])@ == strings@[k]@,
    {
        copies.push(strings[i].clone());
    }
    assert(texts(copies@) =~= texts(strings@));
    copies
}

/// Whether some strings hold a text.
pub fn holds_text(strings: &Vec<String>, wanted: &str) -> (found: bool)
    ensures
        found == texts(strings@).contains(wanted@),
{
    for i in 0..strings.len()
        invariant
            forall|k: int| 0 <= k < i ==> (#[trigger] strings@[k])@ != wanted@,
    {
        if same_text(strings[i].as_str(), wanted) {
            assert(texts(strings@)[i as int] == wanted@);
            return true;
        }
    }
    proof {
        if texts(strings@).contains(wanted@) {
            let k = choose|k: int| 0 <= k < strings@.len() && texts(strings@)[k] == wanted@;
            assert(strings@[k]@ == wanted@);
        }
    }
    false
}

/// So many spaces.
pub open spec fn spaces(n: nat) -> Seq<char> {
    Seq::new(n, |i: int| ' ')
}

/// A text moved to the right of a field of some width.
pub open spec fn padded(text: Seq<char>, width: nat) -> Seq<char> {
    if text.len() >= width {
        text
    } else {
        spaces((width - text.len()) as nat) + text
    }
}

/// A text moved to the right of a field of some width.
pub fn pad_left(text: &str, width: usize) -> (field: String)
    ensures
        field@ == padded(text@, width as nat),
{
    let n: usize = text.unicode_len();
    let mut field: String = String::new();
    let mut k: usize = n;
    assert(field@ =~= spaces(0));
    while k < width
        invariant
            n == text@.len(),
            n <= k,
            k <= width || k == n,
            field@ == spaces((k - n) as nat),
        decreases width - k,
    {
        field.push(' ');
        k = k + 1;
        assert(field@ =~= spaces((k - n) as nat));
    }
    field.append(text);
    assert(n >= width ==> field@ =~= text@);
    field
}

/// A text occurs in another.
pub open spec fn has_part(text: Seq<char>, part: Seq<char>) -> bool {
    exists|k: int|
        0 <= k && k + part.len() <= text.len() && #[trigger] text.subrange(k, k + part.len())
            == part
}

/// What stands between two texts occurs in the whole.
pub proof fn lemma_has_part(before: Seq<char>, part: Seq<char>, behind: Seq<char>)
    ensures
        has_part(before + part + behind, part),
{
    let k = before.len() as int;
    assert((before + part + behind).subrange(k, k + part.len()) =~= part);
}

/// What occurs in a text occurs in a longer one.
pub proof fn lemma_part_stays(before: Seq<char>, text: Seq<char>, behind: Seq<char>, part: Seq<char>)
    requires
        has_part(text, part),
    ensures
        has_part(before + text + behind, part),
{
    let k = choose|k: int|
        0 <= k && k + part.len() <= text.len() && #[trigger] text.subrange(k, k + part.len())
            == part;
    let all = before + text + behind;
    let j = before.len() + k;
    assert(all.subrange(j, j + part.len()) =~= part) by {
        assert forall|i: int| 0 <= i < part.len() implies all.subrange(j, j + part.len())[i]
            == part[i] by {
            assert(text.subrange(k, k + part.len())[i] == part[i]);
        }
    }
}

/// The texts of some strings are theirs, one for each and in their order.
pub proof fn lemma_texts_are_of_the_strings(strings: Seq<String>)
    ensures
        texts(strings).len() == strings.len(),
        forall|i: int| 0 <= i < strings.len() ==> #[trigger] texts(strings)[i] == strings[i]@,
{
}

/// A number in decimal is that of its tenth, and its last digit behind it.
pub proof fn lemma_decimal_goes_by_tens(n: nat, d: nat)
    requires
        d < 10,
    ensures
        decimal(d).len() == 1,
        decimal(d)[0] as int == '0' as int + d,
        n > 0 ==> decimal(10 * n + d).len() == decimal(n).len() + 1,
        n > 0 ==> decimal(10 * n + d).drop_last() == decimal(n),
        n > 0 ==> decimal(10 * n + d).last() as int == '0' as int + d,
        signed_decimal(n as int) == decimal(n),
        n > 0 ==> signed_decimal(-n).len() == decimal(n).len() + 1,
        n > 0 ==> signed_decimal(-n)[0] == '-',
        n > 0 ==> signed_decimal(-n).skip(1) == decimal(n),
{
    reveal_strlit("-");
    if n > 0 {
        assert((10 * n + d) / 10 == n && (10 * n + d) % 10 == d);
        assert(decimal(10 * n + d).drop_last() =~= decimal(n));
        assert(signed_decimal(-n).skip(1) =~= decimal(n));
    }
}

/// A field is as wide as asked for, or as its text, which stands at the right with
/// nothing but spaces before it.
pub proof fn lemma_padding_is_on_the_left(text: Seq<char>, width: nat)
    ensures
        padded(text, width).len() == if text.len() > width {
            text.len()
        } else {
            width
        },
        padded(text, width).skip(padded(text, width).len() - text.len()) == text,
        forall|i: int|
            0 <= i < padded(text, width).len() - text.len() ==> #[trigger] padded(text, width)[i]
                == ' ',
{
    assert(padded(text, width).skip(padded(text, width).len() - text.len()) =~= text);
}

/// Texts are ordered by the first character in which they differ; one that another
/// begins with comes before it.
pub proof fn lemma_first_difference_orders(
    lead: Seq<char>,
    c: char,
    d: char,
    x: Seq<char>,
    y: Seq<char>,
)
    requires
        (c as int) < (d as int),
    ensures
        text_lt(lead + seq![c] + x, lead + seq![d] + y),
        text_lt(lead, lead + seq![c] + x),
    decreases lead.len(),
{
    let a = lead + seq![c] + x;
    let b = lead + seq![d] + y;
    if lead.len() > 0 {
        let rest = lead.drop_first();
        lemma_first_difference_orders(rest, c, d, x, y);
        assert(a.drop_first() =~= rest + seq![c] + x);
        assert(b.drop_first() =~= rest + seq![d] + y);
        assert(a[0] == lead[0] && b[0] == lead[0]);
    } else {
        assert(a[0] == c && b[0] == d);
    }
}

/// What stands last ends the whole.
pub proof fn lemma_is_suffix(before: Seq<char>, behind: Seq<char>)
    ensures
        behind.is_suffix_of(before + behind),
{
    let all = before + behind;
    assert(behind =~= all.subrange(all.len() - behind.len(), all.len() as int));
}

/// A text that begins with two parts begins with the first one, and the second one
/// occurs in it.
pub proof fn lemma_beginning(first: Seq<char>, second: Seq<char>, text: Seq<char>)
    requires
        (first + second).is_prefix_of(text),
    ensures
        first.is_prefix_of(text),
        has_part(text, second),
{
    let both = first + second;
    let rest = text.skip(both.len() as int);
    assert(both =~= text.subrange(0, both.len() as int));
    assert(text =~= first + second + rest);
    lemma_has_part(first, second, rest);
    assert(first =~= text.subrange(0, first.len() as int));
}

} // verus!
