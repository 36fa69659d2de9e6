//! The text exposition format: escaping, labels and lines.
use crate::text::{chars_of, decimal, decimal_text, joined, texts};
use vstd::prelude::*;

verus! {

/// Content type for the text exposition format.
pub const CONTENT_TYPE: &'static str = "text/plain; version=0.0.4; charset=utf-8";

/// A character in escaped form: backslashes and line ends always, quotes where
/// asked for.
pub open spec fn escaped_char(c: char, quotes: bool) -> Seq<char> {
    if c == '\\' {
        seq!['\\', '\\']
    } else if c == '"' && quotes {
        seq!['\\', '"']
    } else if c == '\n' {
        seq!['\\', 'n']
    } else {
        seq![c]
    }
}

/// A text in escaped form.
pub open spec fn escaped(text: Seq<char>, quotes: bool) -> Seq<char>
    decreases text.len(),
{
    if text.len() == 0 {
        Seq::empty()
    } else {
        escaped(text.drop_last(), quotes) + escaped_char(text.last(), quotes)
    }
}

fn escape(value: &str, quotes: bool) -> (text: String)
    ensures
        text@ == escaped(value@, quotes),
{
    let chars: Vec<char> = chars_of(value);
    let mut text: String = String::new();
    assert(chars@.take(0) =~= Seq::<char>::empty());
    for i in 0..chars.len()
        invariant
            text@ == escaped(chars@.take(i as int), quotes),
    {
        let ghost before = text@;
        assert(chars@.take(i + 1).last() == chars@[i as int]);
        assert(chars@.take(i + 1).drop_last() =~= chars@.take(i as int));
        let c: char = chars[i];
        if c == '\\' {
            text.push('\\');
            text.push('\\');
        } else if c == '"' && quotes {
            text.push('\\');
            text.push('"');
        } else if c == '\n' {
            text.push('\\');
            text.push('n');
        } else {
            text.push(c);
        }
        assert(text@ =~= before + escaped_char(c, quotes));
    }
    assert(chars@.take(chars@.len() as int) =~= chars@);
    text
}

/// A label value in escaped form.
pub fn escape_label(value: &str) -> (text: String)
    ensures
        text@ == escaped(value@, true),
{
    escape(value, true)
}

/// A help text in escaped form.
pub fn escape_help(value: &str) -> (text: String)
    ensures
        text@ == escaped(value@, false),
{
    escape(value, false)
}

/// A character that does not end a line.
pub open spec fn is_plain(c: char) -> bool {
    c != '\n'
}

/// An escaped text stays on one line.
pub proof fn lemma_escaped_has_no_line_end(text: Seq<char>, quotes: bool)
    ensures
        forall|i: int|
            0 <= i < escaped(text, quotes).len() ==> is_plain(#[trigger] escaped(text, quotes)[i]),
    decreases text.len(),
{
    if text.len() > 0 {
        lemma_escaped_has_no_line_end(text.drop_last(), quotes);
        let front = escaped(text.drop_last(), quotes);
        let last = escaped_char(text.last(), quotes);
        assert forall|i: int| 0 <= i < escaped(text, quotes).len() implies is_plain(
            #[trigger] escaped(text, quotes)[i],
        ) by {
            if i < front.len() {
                assert(escaped(text, quotes)[i] == front[i]);
            } else {
                assert(escaped(text, quotes)[i] == last[i - front.len()]);
            }
        }
    }
}

/// An escaped text read back: behind a backslash `n` stands for a line end, and any
/// other character for itself.
pub open spec fn unescaped(text: Seq<char>) -> Seq<char>
    decreases text.len(),
{
    if text.len() == 0 {
        Seq::empty()
    } else if text[0] == '\\' && text.len() > 1 {
        seq![if text[1] == 'n' { '\n' } else { text[1] }] + unescaped(text.skip(2))
    } else {
        seq![text[0]] + unescaped(text.skip(1))
    }
}

/// Escapes can be undone: an escaped text, read back, is the text. So two values
/// that look the same in a label or a help line are the same.
pub proof fn lemma_escapes_can_be_undone(text: Seq<char>, quotes: bool)
    ensures
        unescaped(escaped(text, quotes)) == text,
{
    lemma_unescaped_prefix(text, quotes, Seq::empty());
    assert(escaped(text, quotes) + Seq::<char>::empty() =~= escaped(text, quotes));
    assert(unescaped(Seq::<char>::empty()) =~= Seq::<char>::empty());
    assert(text + Seq::<char>::empty() =~= text);
}

proof fn lemma_unescaped_prefix(text: Seq<char>, quotes: bool, tail: Seq<char>)
    ensures
        unescaped(escaped(text, quotes) + tail) == text + unescaped(tail),
    decreases text.len(),
{
    if text.len() == 0 {
        assert(escaped(text, quotes) + tail =~= tail);
        assert(text + unescaped(tail) =~= unescaped(tail));
    } else {
        let front = text.drop_last();
        let shown = escaped_char(text.last(), quotes);
        lemma_unescaped_prefix(front, quotes, shown + tail);
        assert(escaped(text, quotes) + tail =~= escaped(front, quotes) + (shown + tail));
        assert((shown + tail).skip(shown.len() as int) =~= tail);
        assert(front + (seq![text.last()] + unescaped(tail)) =~= text + unescaped(tail));
    }
}

/// A label with its value.
pub open spec fn label_part(name: Seq<char>, value: Seq<char>) -> Seq<char> {
    name + "=\""@ + escaped(value, true) + "\""@
}

/// Parts with commas between them.
pub open spec fn with_commas(parts: Seq<Seq<char>>) -> Seq<char>
    decreases parts.len(),
{
    if parts.len() == 0 {
        Seq::empty()
    } else if parts.len() == 1 {
        parts[0]
    } else {
        with_commas(parts.drop_last()) + ","@ + parts.last()
    }
}

/// The labels of a label set, and one more if given.
pub open spec fn label_parts(
    names: Seq<Seq<char>>,
    values: Seq<Seq<char>>,
    extra: Option<(Seq<char>, Seq<char>)>,
) -> Seq<Seq<char>> {
    let own = Seq::new(names.len(), |i: int| label_part(names[i], values[i]));
    match extra {
        Some((name, value)) => own.push(label_part(name, value)),
        None => own,
    }
}

/// The labels in braces; nothing where there are none.
pub open spec fn label_block(
    names: Seq<Seq<char>>,
    values: Seq<Seq<char>>,
    extra: Option<(Seq<char>, Seq<char>)>,
) -> Seq<char> {
    let parts = label_parts(names, values, extra);
    if parts.len() == 0 {
        Seq::empty()
    } else {
        "{"@ + with_commas(parts) + "}"@
    }
}

fn part_text(name: &str, value: &str) -> (text: String)
    ensures
        text@ == label_part(name@, value@),
{
    let mut text: String = joined(name, "=\"");
    text.append(escape_label(value).as_str());
    text.append("\"");
    text
}

/// The texts of string slices.
pub open spec fn slice_texts(list: Seq<&str>) -> Seq<Seq<char>> {
    Seq::new(list.len(), |i: int| list[i]@)
}

/// The text of an additional label.
pub open spec fn extra_texts(extra: Option<(&str, &str)>) -> Option<(Seq<char>, Seq<char>)> {
    match extra {
        Some((name, value)) => Some((name@, value@)),
        None => None,
    }
}

fn push_part(parts: &mut String, part: &str, first: bool, Ghost(done): Ghost<Seq<Seq<char>>>)
    requires
        old(parts)@ == with_commas(done),
        first == (done.len() == 0),
    ensures
        final(parts)@ == with_commas(done.push(part@)),
{
    let ghost before = parts@;
    assert(done.push(part@).drop_last() =~= done);
    if !first {
        parts.append(",");
    }
    parts.append(part);
    assert(done.len() == 0 ==> parts@ =~= part@);
}

/// Render a label set.
pub fn label_block_text(
    names: &[&str],
    values: &Vec<String>,
    extra: Option<(&str, &str)>,
) -> (text: String)
    requires
        names@.len() == values@.len(),
    ensures
        text@ == label_block(slice_texts(names@), texts(values@), extra_texts(extra)),
{
    let ghost own = label_parts(slice_texts(names@), texts(values@), None);
    let mut parts: String = String::new();
    let ghost mut done: Seq<Seq<char>> = Seq::empty();
    assert(own.take(0) =~= done);
    for i in 0..names.len()
        invariant
            names@.len() == values@.len(),
            own == label_parts(slice_texts(names@), texts(values@), None),
            done == own.take(i as int),
            parts@ == with_commas(done),
    {
        let part: String = part_text(names[i], values[i].as_str());
        push_part(&mut parts, part.as_str(), i == 0, Ghost(done));
        proof {
            assert(own[i as int] == part@);
            assert(own.take(i as int + 1) =~= done.push(part@));
            done = done.push(part@);
        }
    }
    assert(own.take(own.len() as int) =~= own);
    let mut empty: bool = names.len() == 0;
    if let Some((name, value)) = extra {
        let part: String = part_text(name, value);
        push_part(&mut parts, part.as_str(), empty, Ghost(done));
        empty = false;
    }
    if empty {
        String::new()
    } else {
        let mut text: String = joined("{", parts.as_str());
        text.append("}");
        text
    }
}

/// The two lines that introduce a family.
pub open spec fn header_lines(name: Seq<char>, help: Seq<char>, kind: Seq<char>) -> Seq<char> {
    "# HELP "@ + name + " "@ + escaped(help, false) + "\n# TYPE "@ + name + " "@ + kind + "\n"@
}

/// The two lines that introduce a family.
pub fn header_text(name: &str, help: &str, kind: &str) -> (text: String)
    ensures
        text@ == header_lines(name@, help@, kind@),
{
    let mut text: String = joined("# HELP ", name);
    text.append(" ");
    text.append(escape_help(help).as_str());
    text.append("\n# TYPE ");
    text.append(name);
    text.append(" ");
    text.append(kind);
    text.append("\n");
    text
}

/// A sample: the series and its value.
pub open spec fn sample_line(name: Seq<char>, block: Seq<char>, value: Seq<char>) -> Seq<char> {
    name + block + " "@ + value + "\n"@
}

/// Append a sample.
pub fn push_sample(out: &mut String, name: &str, block: &str, value: &str)
    ensures
        final(out)@ == old(out)@ + sample_line(name@, block@, value@),
{
    let ghost before = out@;
    out.append(name);
    out.append(block);
    out.append(" ");
    out.append(value);
    out.append("\n");
    assert(out@ =~= before + sample_line(name@, block@, value@));
}

/// A host has a colon in it, as a bare IPv6 address does.
pub open spec fn has_colon(host: Seq<char>) -> bool {
    exists|i: int| 0 <= i < host.len() && (#[trigger] host[i]) == ':'
}

/// Join a configured host and port into an address to bind. A bare IPv6 host
/// is put in brackets, or the port would read as part of it.
pub fn bind_addr(host: &str, port: u16) -> (address: String)
    ensures
        address@ == (if has_colon(host@) && host@[0] != '[' {
            "["@ + host@ + "]:"@ + decimal(port as nat)
        } else {
            host@ + ":"@ + decimal(port as nat)
        }),
{
    let chars: Vec<char> = chars_of(host);
    let mut found: bool = false;
    for i in 0..chars.len()
        invariant
            found == exists|k: int| 0 <= k < i && (#[trigger] chars@[k]) == ':',
    {
        if chars[i] == ':' {
            found = true;
        }
    }
    if found && chars[0] != '[' {
        let mut address: String = joined("[", host);
        address.append("]:");
        address.append(decimal_text(port as u64).as_str());
        address
    } else {
        let mut address: String = joined(host, ":");
        address.append(decimal_text(port as u64).as_str());
        address
    }
}

/// The label for how something ended.
pub fn result_label<T, E>(result: &Result<T, E>) -> (label: &'static str)
    ensures
        label@ == (if result is Ok {
            "success"@
        } else {
            "failure"@
        }),
{
    if result.is_ok() {
        "success"
    } else {
        "failure"
    }
}

/// A text is escaped character by character: a backslash stands before each
/// backslash and line end, and before each quote where those are escaped; every other
/// character stands for itself.
pub proof fn lemma_escapes_are_piecewise(a: Seq<char>, b: Seq<char>, c: char, quotes: bool)
    ensures
        escaped(a + b, quotes) == escaped(a, quotes) + escaped(b, quotes),
        c == '\\' || c == '\n' || c == '"' && quotes ==> escaped(seq![c], quotes).len() == 2
            && escaped(seq![c], quotes)[0] == '\\',
        c != '\\' && c != '\n' && !(c == '"' && quotes) ==> escaped(seq![c], quotes) == seq![c],
    decreases b.len(),
{
    assert(seq![c].drop_last() =~= Seq::<char>::empty());
    assert(escaped(Seq::<char>::empty(), quotes) =~= Seq::<char>::empty());
    assert(escaped(seq![c], quotes) =~= escaped_char(c, quotes));
    if b.len() == 0 {
        assert(a + b =~= a);
        assert(escaped(a, quotes) + Seq::<char>::empty() =~= escaped(a, quotes));
    } else {
        lemma_escapes_are_piecewise(a, b.drop_last(), c, quotes);
        assert((a + b).drop_last() =~= a + b.drop_last());
        assert((a + b).last() == b.last());
        assert(escaped(a + b, quotes) =~= escaped(a, quotes) + escaped(b, quotes));
    }
}

/// A label is its name, an equals sign, and its value between quotes, from which
/// the value can be read back.
pub proof fn lemma_label_holds_its_value(name: Seq<char>, value: Seq<char>)
    ensures
        ({
            let part = label_part(name, value);
            let n = name.len() as int;
            &&& part.len() >= n + 3
            &&& part.take(n) == name
            &&& part[n] == '=' && part[n + 1] == '"' && part.last() == '"'
            &&& unescaped(part.subrange(n + 2, part.len() - 1)) == value
        }),
{
    reveal_strlit("=\"");
    reveal_strlit("\"");
    let part = label_part(name, value);
    let n = name.len() as int;
    lemma_escapes_can_be_undone(value, true);
    assert(part.take(n) =~= name);
    assert(part.subrange(n + 2, part.len() - 1) =~= escaped(value, true));
}

/// Where part `i` begins among parts with one character between each two.
pub open spec fn part_start(parts: Seq<Seq<char>>, i: int) -> int
    decreases i,
{
    if i <= 0 {
        0
    } else {
        part_start(parts, i - 1) + parts[i - 1].len() + 1
    }
}

proof fn lemma_part_start_of_front(parts: Seq<Seq<char>>, i: int)
    requires
        0 <= i < parts.len(),
    ensures
        part_start(parts, i) == part_start(parts.drop_last(), i),
        part_start(parts, i) >= 0,
    decreases i,
{
    if i > 0 {
        lemma_part_start_of_front(parts, i - 1);
    }
}

/// All parts stand one behind the other, with a comma between each two and nothing
/// else.
pub proof fn lemma_commas_stand_between(parts: Seq<Seq<char>>, i: int)
    requires
        0 <= i < parts.len(),
    ensures
        part_start(parts, i) >= 0,
        part_start(parts, i) + parts[i].len() <= with_commas(parts).len(),
        with_commas(parts).subrange(part_start(parts, i), part_start(parts, i) + parts[i].len())
            == parts[i],
        i + 1 < parts.len() ==> part_start(parts, i) + parts[i].len() < with_commas(parts).len()
            && with_commas(parts)[part_start(parts, i) + parts[i].len()] == ',',
        with_commas(parts).len() == part_start(parts, parts.len() as int) - 1,
    decreases parts.len(),
{
    reveal_strlit(",");
    let n = parts.len() as int;
    let text = with_commas(parts);
    let start = part_start(parts, i);
    lemma_part_start_of_front(parts, i);
    lemma_part_start_of_front(parts, n - 1);
    if n == 1 {
        assert(text.subrange(start, start + parts[i].len()) =~= parts[i]);
        assert(part_start(parts, 0) == 0);
    } else {
        let front = parts.drop_last();
        let led = with_commas(front);
        lemma_commas_stand_between(front, n - 2);
        if i < n - 1 {
            lemma_commas_stand_between(front, i);
            assert(front[i] == parts[i]);
            assert(text.subrange(start, start + parts[i].len()) =~= led.subrange(
                start,
                start + parts[i].len(),
            ));
            if i + 1 == n - 1 {
                assert(start + parts[i].len() == led.len());
            }
        } else {
            assert(start == led.len() + 1);
            assert(text.subrange(start, start + parts[i].len()) =~= parts[i]);
        }
    }
}

/// All labels of a set stand in its braces, in order, and the additional one last.
/// Without any there are no braces.
pub proof fn lemma_block_has_every_label(
    names: Seq<Seq<char>>,
    values: Seq<Seq<char>>,
    extra: Option<(Seq<char>, Seq<char>)>,
)
    ensures
        ({
            let parts = label_parts(names, values, extra);
            let block = label_block(names, values, extra);
            &&& parts.len() == names.len() + if extra is Some {
                1nat
            } else {
                0
            }
            &&& forall|i: int|
                0 <= i < names.len() ==> parts[i] == label_part(#[trigger] names[i], values[i])
            &&& extra is Some ==> parts.last() == label_part((extra->0).0, (extra->0).1)
            &&& parts.len() == 0 ==> block.len() == 0
            &&& parts.len() > 0 ==> block.len() == with_commas(parts).len() + 2 && block[0] == '{'
                && block.last() == '}' && block.subrange(1, block.len() - 1) == with_commas(parts)
        }),
{
    reveal_strlit("{");
    reveal_strlit("}");
    let parts = label_parts(names, values, extra);
    let block = label_block(names, values, extra);
    if parts.len() > 0 {
        assert(block.subrange(1, block.len() - 1) =~= with_commas(parts));
    }
}

/// A sample begins with the series and ends in its value and a line end.
pub proof fn lemma_sample_gives_the_value(name: Seq<char>, block: Seq<char>, value: Seq<char>)
    ensures
        ({
            let line = sample_line(name, block, value);
            let n = (name.len() + block.len()) as int;
            &&& line.len() == n + value.len() + 2
            &&& line.take(n) == name + block
            &&& line[n] == ' ' && line.last() == '\n'
            &&& line.subrange(n + 1, line.len() - 1) == value
        }),
{
    reveal_strlit(" ");
    reveal_strlit("\n");
    let line = sample_line(name, block, value);
    let n = (name.len() + block.len()) as int;
    assert(line.take(n) =~= name + block);
    assert(line.subrange(n + 1, line.len() - 1) =~= value);
}

/// A family is introduced by its help on one line and its kind on the next.
pub proof fn lemma_header_gives_help_and_kind(name: Seq<char>, help: Seq<char>, kind: Seq<char>)
    ensures
        header_lines(name, help, kind) == ("# HELP "@ + name + " "@ + escaped(help, false)
            + "\n"@) + ("# TYPE "@ + name + " "@ + kind + "\n"@),
        unescaped(escaped(help, false)) == help,
{
    reveal_strlit("\n# TYPE ");
    reveal_strlit("# TYPE ");
    reveal_strlit("\n");
    lemma_escapes_can_be_undone(help, false);
    assert(header_lines(name, help, kind) =~= ("# HELP "@ + name + " "@ + escaped(help, false)
        + "\n"@) + ("# TYPE "@ + name + " "@ + kind + "\n"@));
}

/// A host is taken for a bare IPv6 address where a colon stands anywhere in it.
pub proof fn lemma_colons_anywhere(host: Seq<char>)
    ensures
        has_colon(host) <==> host.contains(':'),
{
    if host.contains(':') {
        let i = choose|i: int| 0 <= i < host.len() && host[i] == ':';
        assert(host[i] == ':');
    }
    if has_colon(host) {
        let i = choose|i: int| 0 <= i < host.len() && (#[trigger] host[i]) == ':';
        assert(host.contains(host[i]));
    }
}

/// Slices and an additional label are taken one for one.
pub proof fn lemma_slices_one_for_one(list: Seq<&str>, extra: Option<(&str, &str)>)
    ensures
        slice_texts(list).len() == list.len(),
        forall|i: int| 0 <= i < list.len() ==> #[trigger] slice_texts(list)[i] == list[i]@,
        extra is None <==> extra_texts(extra) is None,
        extra is Some ==> extra_texts(extra)->0 == ((extra->0).0@, (extra->0).1@),
{
}

} // verus!
