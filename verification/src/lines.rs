//! The line-oriented text format of the history file.
//!
//! A text is a sequence of characters. Its lines end at a line feed or at a
//! carriage return followed by a line feed; the last line needs no ending.
use itertools::Itertools;
use vstd::prelude::*;
use vstd::string::StringExecFns;

verus! {

/// Whether `c` is white space, as Unicode defines it (`White_Space`).
pub open spec fn is_whitespace(c: char) -> bool {
    let u = c as u32;
    ||| 0x09 <= u <= 0x0D
    ||| u == 0x20
    ||| u == 0x85
    ||| u == 0xA0
    ||| u == 0x1680
    ||| 0x2000 <= u <= 0x200A
    ||| u == 0x2028
    ||| u == 0x2029
    ||| u == 0x202F
    ||| u == 0x205F
    ||| u == 0x3000
}

/// `s` without its leading white space.
pub open spec fn trim_start(s: Seq<char>) -> Seq<char>
    decreases s.len(),
{
    if s.len() > 0 && is_whitespace(s.first()) {
        trim_start(s.drop_first())
    } else {
        s
    }
}

/// `s` without its trailing white space.
pub open spec fn trim_end(s: Seq<char>) -> Seq<char>
    decreases s.len(),
{
    if s.len() > 0 && is_whitespace(s.last()) {
        trim_end(s.drop_last())
    } else {
        s
    }
}

/// `s` without the white space around it.
pub open spec fn trim(s: Seq<char>) -> Seq<char> {
    trim_end(trim_start(s))
}

/// Whether `s` is what `trim` leaves of some text that is not all white space:
/// not empty, and with no white space at either end.
pub open spec fn is_trimmed(s: Seq<char>) -> bool {
    s.len() > 0 && !is_whitespace(s.first()) && !is_whitespace(s.last())
}

/// The position of the first line feed in `s`, or the length of `s` where it
/// holds none.
pub open spec fn line_end(s: Seq<char>) -> nat
    decreases s.len(),
{
    if s.len() == 0 || s.first() == '\n' {
        0
    } else {
        1 + line_end(s.drop_first())
    }
}

/// `line` without the carriage return at its end, if it has one.
pub open spec fn without_carriage_return(line: Seq<char>) -> Seq<char> {
    if line.len() > 0 && line.last() == '\r' {
        line.drop_last()
    } else {
        line
    }
}

/// The lines of `s`, without their endings. A line ends at a line feed; a
/// carriage return just before that line feed belongs to the ending. What
/// follows the last line feed is a line too, unless it is empty, and keeps a
/// carriage return at its end.
pub open spec fn split_lines(s: Seq<char>) -> Seq<Seq<char>>
    decreases s.len(),
{
    let n = line_end(s) as int;
    if s.len() == 0 {
        Seq::empty()
    } else if n < s.len() {
        seq![without_carriage_return(s.take(n))] + split_lines(s.skip(n + 1))
    } else {
        seq![s]
    }
}

/// The text that holds each of `lines` followed by a line feed.
pub open spec fn join_lines(lines: Seq<Seq<char>>) -> Seq<char>
    decreases lines.len(),
{
    if lines.len() == 0 {
        Seq::empty()
    } else {
        join_lines(lines.drop_last()) + lines.last().push('\n')
    }
}

/// What is read of lines that were written one per line: a carriage return
/// at the end of a line is taken for a part of the line's ending.
pub open spec fn read_back(lines: Seq<Seq<char>>) -> Seq<Seq<char>> {
    lines.map_values(|line: Seq<char>| without_carriage_return(line))
}

/// The entries that `lines` give: each line without the white space around
/// it, those left out of which nothing remains.
pub open spec fn kept_entries(lines: Seq<Seq<char>>) -> Seq<Seq<char>> {
    lines.map_values(|line: Seq<char>| trim(line)).filter(|entry: Seq<char>| entry.len() > 0)
}

/// The entries that a text stores: those that its lines give.
pub open spec fn stored_entries(s: Seq<char>) -> Seq<Seq<char>> {
    kept_entries(split_lines(s))
}

/// The views of the strings in `strings`, in their order.
pub open spec fn views(strings: Seq<String>) -> Seq<Seq<char>> {
    strings.map_values(|s: String| s@)
}

/// `String::push` appends one character to the end of the string.
pub assume_specification[ String::push ](s: &mut String, ch: char)
    ensures
        final(s)@ == old(s)@.push(ch),
;

/// `Itertools::collect_vec` gathers what an iterator yields into a vector, in
/// the order in which it yields it. Here the iterator is `str::chars`, so the
/// vector holds the characters of `text`, first to last.
#[verifier::external_body]
pub(crate) fn collect_chars(text: &str) -> (chars: Vec<char>)
    ensures
        chars@ == text@,
{
    text.chars().collect_vec()
}

/// Tells whether `c` is white space.
pub fn is_whitespace_char(c: char) -> (b: bool)
    ensures
        b == is_whitespace(c),
{
    let u: u32 = c as u32;
    (0x09 <= u && u <= 0x0D) || u == 0x20 || u == 0x85 || u == 0xA0 || u == 0x1680 || (0x2000 <= u
        && u <= 0x200A) || u == 0x2028 || u == 0x2029 || u == 0x202F || u == 0x205F || u == 0x3000
}

/// The position at which the line that starts at `from` ends: that of the next
/// line feed, or the end of `chars`.
fn find_line_end(chars: &[char], from: usize) -> (end: usize)
    requires
        from <= chars.len(),
    ensures
        from <= end <= chars.len(),
        end - from == line_end(chars@.skip(from as int)),
{
    let mut end = from;
    while end < chars.len() && chars[end] != '\n'
        invariant
            from <= end <= chars.len(),
            line_end(chars@.skip(from as int)) == (end - from) + line_end(chars@.skip(end as int)),
        decreases chars.len() - end,
    {
        proof {
            assert(chars@.skip(end as int).drop_first() =~= chars@.skip(end + 1));
        }
        end += 1;
    }
    end
}

/// The line that starts at `pos`: where it stops, and where the line after
/// it starts.
pub(crate) fn next_line(chars: &[char], pos: usize) -> (line: (usize, usize))
    requires
        pos < chars.len(),
    ensures
        pos <= line.0 <= line.1 <= chars.len(),
        pos < line.1,
        split_lines(chars@.skip(pos as int)) == seq![
            chars@.subrange(pos as int, line.0 as int),
        ] + split_lines(chars@.skip(line.1 as int)),
{
    let end = find_line_end(chars, pos);
    let ghost here = chars@.skip(pos as int);
    proof {
        assert(here.take(end - pos) =~= chars@.subrange(pos as int, end as int));
    }
    if end < chars.len() {
        let stop = if pos < end && chars[end - 1] == '\r' {
            end - 1
        } else {
            end
        };
        proof {
            assert(here.skip(end - pos + 1) =~= chars@.skip(end + 1));
            if pos < end {
                assert(chars@.subrange(pos as int, end as int).drop_last() =~= chars@.subrange(
                    pos as int,
                    end - 1,
                ));
            }
        }
        (stop, end + 1)
    } else {
        proof {
            assert(here =~= chars@.subrange(pos as int, end as int));
            assert(chars@.skip(end as int) =~= Seq::empty());
            assert(seq![here] + split_lines(chars@.skip(end as int)) =~= seq![here]);
        }
        (end, end)
    }
}

/// The bounds of what `trim` leaves of `chars[from..to]`.
fn trim_bounds(chars: &[char], from: usize, to: usize) -> (bounds: (usize, usize))
    requires
        from <= to <= chars.len(),
    ensures
        from <= bounds.0 <= bounds.1 <= to,
        chars@.subrange(bounds.0 as int, bounds.1 as int) == trim(
            chars@.subrange(from as int, to as int),
        ),
{
    let mut start = from;
    while start < to && is_whitespace_char(chars[start])
        invariant
            from <= start <= to <= chars.len(),
            trim_start(chars@.subrange(from as int, to as int)) == trim_start(
                chars@.subrange(start as int, to as int),
            ),
        decreases to - start,
    {
        proof {
            assert(chars@.subrange(start as int, to as int).drop_first() =~= chars@.subrange(
                start + 1,
                to as int,
            ));
        }
        start += 1;
    }
    let mut end = to;
    while start < end && is_whitespace_char(chars[end - 1])
        invariant
            start <= end <= to <= chars.len(),
            trim_end(chars@.subrange(start as int, to as int)) == trim_end(
                chars@.subrange(start as int, end as int),
            ),
        decreases end - start,
    {
        proof {
            assert(chars@.subrange(start as int, end as int).drop_last() =~= chars@.subrange(
                start as int,
                end - 1,
            ));
        }
        end -= 1;
    }
    (start, end)
}

/// Appends `chars[from..to]` to `text`.
pub(crate) fn append_chars(text: &mut String, chars: &[char], from: usize, to: usize)
    requires
        from <= to <= chars.len(),
    ensures
        final(text)@ == old(text)@ + chars@.subrange(from as int, to as int),
{
    let mut i = from;
    proof {
        assert(text@ + chars@.subrange(from as int, from as int) =~= text@);
    }
    while i < to
        invariant
            from <= i <= to <= chars.len(),
            text@ == old(text)@ + chars@.subrange(from as int, i as int),
        decreases to - i,
    {
        text.push(chars[i]);
        proof {
            assert(old(text)@ + chars@.subrange(from as int, i + 1) =~= (old(text)@
                + chars@.subrange(from as int, i as int)).push(chars@[i as int]));
        }
        i += 1;
    }
}

/// Reads the entries that `content` stores.
pub fn read_entries(content: &str) -> (entries: Vec<String>)
    ensures
        views(entries@) == stored_entries(content@),
{
    let chars = collect_chars(content);
    let mut entries: Vec<String> = Vec::new();
    let mut pos: usize = 0;
    proof {
        assert(views(entries@) =~= Seq::empty());
        assert(chars@.skip(0) =~= chars@);
        assert(Seq::<Seq<char>>::empty() + stored_entries(chars@) =~= stored_entries(chars@));
    }
    while pos < chars.len()
        invariant
            pos <= chars.len(),
            views(entries@) + stored_entries(chars@.skip(pos as int)) == stored_entries(chars@),
        decreases chars.len() - pos,
    {
        let ghost before = views(entries@);
        let (stop, next) = next_line(&chars, pos);
        let (first, last) = trim_bounds(&chars, pos, stop);
        let ghost line = chars@.subrange(pos as int, stop as int);
        let ghost rest = stored_entries(chars@.skip(next as int));
        proof {
            lemma_kept_entries_concat(seq![line], split_lines(chars@.skip(next as int)));
            lemma_kept_entries_one(line);
        }
        if first < last {
            let mut entry = String::new();
            append_chars(&mut entry, &chars, first, last);
            proof {
                assert(entry@ =~= trim(line));
                lemma_views_push(entries@, entry);
                assert(before.push(entry@) + rest =~= before + (seq![entry@] + rest));
            }
            entries.push(entry);
        } else {
            proof {
                assert(chars@.subrange(first as int, last as int) =~= Seq::empty());
                assert(Seq::<Seq<char>>::empty() + rest =~= rest);
            }
        }
        pos = next;
    }
    proof {
        assert(chars@.skip(pos as int) =~= Seq::empty());
        lemma_kept_entries_one(Seq::empty());
        assert(views(entries@) + Seq::<Seq<char>>::empty() =~= views(entries@));
    }
    entries
}

/// Writes `lines[from..]` as text, each line followed by a line feed.
pub fn write_lines(lines: &[String], from: usize) -> (text: String)
    requires
        from <= lines.len(),
    ensures
        text@ == join_lines(views(lines@).skip(from as int)),
{
    let mut text = String::new();
    let mut i = from;
    proof {
        assert(views(lines@).subrange(from as int, from as int) =~= Seq::empty());
    }
    while i < lines.len()
        invariant
            from <= i <= lines.len(),
            text@ == join_lines(views(lines@).subrange(from as int, i as int)),
        decreases lines.len() - i,
    {
        text.append(lines[i].as_str());
        text.push('\n');
        proof {
            let done = views(lines@).subrange(from as int, i + 1);
            assert(done.drop_last() =~= views(lines@).subrange(from as int, i as int));
            assert(done.last() == lines@[i as int]@);
            assert(text@ =~= join_lines(done.drop_last()) + done.last().push('\n'));
        }
        i += 1;
    }
    proof {
        assert(views(lines@).subrange(from as int, i as int) =~= views(lines@).skip(from as int));
    }
    text
}

/// The line feed is where `line_end` says, and nowhere before.
pub proof fn lemma_line_end(s: Seq<char>)
    ensures
        line_end(s) <= s.len(),
        line_end(s) < s.len() ==> s[line_end(s) as int] == '\n',
        forall|i: int| 0 <= i < line_end(s) ==> s[i] != '\n',
    decreases s.len(),
{
    if s.len() > 0 && s.first() != '\n' {
        let rest = s.drop_first();
        lemma_line_end(rest);
        assert forall|i: int| 0 <= i < line_end(s) implies s[i] != '\n' by {
            if i > 0 {
                assert(s[i] == rest[i - 1]);
            }
        }
    }
}

/// A line feed with none before it is where the first line ends.
pub proof fn lemma_line_end_at(s: Seq<char>, n: int)
    requires
        0 <= n < s.len(),
        s[n] == '\n',
        forall|i: int| 0 <= i < n ==> s[i] != '\n',
    ensures
        line_end(s) == n,
{
    lemma_line_end(s);
}

/// `trim_start` leaves a suffix that does not start with white space.
pub proof fn lemma_trim_start(s: Seq<char>)
    ensures
        trim_start(s).len() <= s.len(),
        trim_start(s) == s.skip(s.len() - trim_start(s).len()),
        trim_start(s).len() > 0 ==> !is_whitespace(trim_start(s).first()),
    decreases s.len(),
{
    if s.len() > 0 && is_whitespace(s.first()) {
        let rest = s.drop_first();
        lemma_trim_start(rest);
        assert(rest.skip(rest.len() - trim_start(rest).len()) =~= s.skip(
            s.len() - trim_start(s).len(),
        ));
    } else {
        assert(s.skip(0) =~= s);
    }
}

/// `trim_end` leaves a prefix that does not end with white space.
pub proof fn lemma_trim_end(s: Seq<char>)
    ensures
        trim_end(s).len() <= s.len(),
        trim_end(s) == s.take(trim_end(s).len() as int),
        trim_end(s).len() > 0 ==> !is_whitespace(trim_end(s).last()),
    decreases s.len(),
{
    if s.len() > 0 && is_whitespace(s.last()) {
        let rest = s.drop_last();
        lemma_trim_end(rest);
        assert(rest.take(trim_end(rest).len() as int) =~= s.take(trim_end(s).len() as int));
    } else {
        assert(s.take(s.len() as int) =~= s);
    }
}

/// What `trim` leaves is empty or trimmed, and `trim` changes nothing that is
/// trimmed.
pub proof fn lemma_trim(s: Seq<char>)
    ensures
        trim(s).len() > 0 ==> is_trimmed(trim(s)),
        is_trimmed(s) ==> trim(s) == s,
{
    lemma_trim_start(s);
    lemma_trim_end(trim_start(s));
}

/// White space at the end of a text leaves nothing behind when the text is
/// trimmed.
pub proof fn lemma_trim_ignores_last_white_space(s: Seq<char>, c: char)
    requires
        is_whitespace(c),
    ensures
        trim(s.push(c)) == trim(s),
    decreases s.len(),
{
    let longer = s.push(c);
    if s.len() == 0 {
        assert(longer.drop_first() =~= s);
    } else if is_whitespace(s.first()) {
        assert(longer.drop_first() =~= s.drop_first().push(c));
        lemma_trim_ignores_last_white_space(s.drop_first(), c);
    } else {
        assert(longer.drop_last() =~= s);
    }
}

/// A carriage return at the end of a line leaves nothing behind when the
/// line is trimmed: lines that are read back give the entries that they gave
/// before.
pub proof fn lemma_kept_entries_of_read_back(lines: Seq<Seq<char>>)
    ensures
        kept_entries(read_back(lines)) == kept_entries(lines),
    decreases lines.len(),
{
    if lines.len() == 0 {
        assert(read_back(lines) =~= lines);
    } else {
        let front = lines.drop_last();
        let line = lines.last();
        lemma_kept_entries_of_read_back(front);
        assert(lines =~= front + seq![line]);
        assert(read_back(lines) =~= read_back(front) + seq![without_carriage_return(line)]);
        lemma_kept_entries_concat(front, seq![line]);
        lemma_kept_entries_concat(read_back(front), seq![without_carriage_return(line)]);
        lemma_kept_entries_one(line);
        lemma_kept_entries_one(without_carriage_return(line));
        if line.len() > 0 && line.last() == '\r' {
            lemma_trim_ignores_last_white_space(line.drop_last(), '\r');
            assert(line.drop_last().push('\r') =~= line);
        }
    }
}

/// Appending a string appends its view.
pub proof fn lemma_views_push(strings: Seq<String>, s: String)
    ensures
        views(strings.push(s)) == views(strings).push(s@),
{
    assert(views(strings.push(s)) =~= views(strings).push(s@));
}

/// The entries of two runs of lines are those of the first run, then those
/// of the second.
pub proof fn lemma_kept_entries_concat(a: Seq<Seq<char>>, b: Seq<Seq<char>>)
    ensures
        kept_entries(a + b) == kept_entries(a) + kept_entries(b),
{
    let f = |line: Seq<char>| trim(line);
    let p = |entry: Seq<char>| entry.len() > 0;
    assert((a + b).map_values(f) =~= a.map_values(f) + b.map_values(f));
    Seq::filter_distributes_over_add(a.map_values(f), b.map_values(f), p);
}

/// One line gives one entry, or none where it holds white space only.
pub proof fn lemma_kept_entries_one(line: Seq<char>)
    ensures
        kept_entries(seq![line]) == if trim(line).len() > 0 {
            seq![trim(line)]
        } else {
            Seq::empty()
        },
        kept_entries(Seq::empty()) == Seq::<Seq<char>>::empty(),
{
    let f = |line: Seq<char>| trim(line);
    let p = |entry: Seq<char>| entry.len() > 0;
    reveal_with_fuel(Seq::filter, 2);
    assert(seq![line].map_values(f) =~= seq![trim(line)]);
    assert(seq![trim(line)].drop_last() =~= Seq::empty());
    assert(Seq::<Seq<char>>::empty().map_values(f) =~= Seq::empty());
    if trim(line).len() > 0 {
        assert(seq![trim(line)].filter(p) =~= seq![trim(line)]);
    } else {
        assert(seq![trim(line)].filter(p) =~= Seq::empty());
    }
}

/// Every entry that lines give is trimmed.
pub proof fn lemma_kept_entries_trimmed(lines: Seq<Seq<char>>)
    ensures
        forall|i: int|
            0 <= i < kept_entries(lines).len() ==> is_trimmed(#[trigger] kept_entries(lines)[i]),
    decreases lines.len(),
{
    if lines.len() == 0 {
        lemma_kept_entries_one(Seq::empty());
        assert(lines =~= Seq::empty());
    } else {
        let front = lines.drop_last();
        lemma_kept_entries_trimmed(front);
        lemma_kept_entries_concat(front, seq![lines.last()]);
        lemma_kept_entries_one(lines.last());
        lemma_trim(lines.last());
        assert(lines =~= front + seq![lines.last()]);
    }
}

/// Lines that are trimmed are the entries that they give.
pub proof fn lemma_kept_entries_unchanged(lines: Seq<Seq<char>>)
    requires
        forall|i: int| 0 <= i < lines.len() ==> is_trimmed(#[trigger] lines[i]),
    ensures
        kept_entries(lines) == lines,
    decreases lines.len(),
{
    if lines.len() == 0 {
        lemma_kept_entries_one(Seq::empty());
        assert(lines =~= Seq::empty());
    } else {
        let front = lines.drop_last();
        lemma_kept_entries_unchanged(front);
        lemma_kept_entries_concat(front, seq![lines.last()]);
        lemma_kept_entries_one(lines.last());
        lemma_trim(lines.last());
        assert(lines =~= front + seq![lines.last()]);
    }
}

/// Every entry that a text stores is trimmed.
pub proof fn lemma_stored_entries_trimmed(s: Seq<char>)
    ensures
        forall|i: int|
            0 <= i < stored_entries(s).len() ==> is_trimmed(#[trigger] stored_entries(s)[i]),
{
    lemma_kept_entries_trimmed(split_lines(s));
}

/// No line holds a line feed.
pub proof fn lemma_split_lines_hold_no_line_feed(s: Seq<char>)
    ensures
        forall|i: int|
            0 <= i < split_lines(s).len() ==> !(#[trigger] split_lines(s)[i]).contains('\n'),
    decreases s.len(),
{
    if s.len() > 0 {
        lemma_line_end(s);
        let n = line_end(s) as int;
        if n < s.len() {
            let rest = split_lines(s.skip(n + 1));
            lemma_split_lines_hold_no_line_feed(s.skip(n + 1));
            assert forall|i: int| 0 <= i < split_lines(s).len() implies !(#[trigger] split_lines(
                s,
            )[i]).contains('\n') by {
                if i > 0 {
                    assert(split_lines(s)[i] == rest[i - 1]);
                }
            }
        }
    }
}

/// The lines of a text that is empty or ends with a line feed, followed by
/// any text, are the lines of the first and then the lines of the second.
pub proof fn lemma_split_lines_concat(a: Seq<char>, b: Seq<char>)
    requires
        a.len() == 0 || a.last() == '\n',
    ensures
        split_lines(a + b) == split_lines(a) + split_lines(b),
    decreases a.len(),
{
    if a.len() == 0 {
        assert(a + b =~= b);
        assert(split_lines(a) + split_lines(b) =~= split_lines(b));
    } else {
        lemma_line_end(a);
        let n = line_end(a) as int;
        lemma_line_end_at(a + b, n);
        assert((a + b).take(n) =~= a.take(n));
        assert((a + b).skip(n + 1) =~= a.skip(n + 1) + b);
        lemma_split_lines_concat(a.skip(n + 1), b);
        assert(split_lines(a + b) =~= split_lines(a) + split_lines(b));
    }
}

/// Joining two runs of lines joins their texts.
pub proof fn lemma_join_lines_concat(a: Seq<Seq<char>>, b: Seq<Seq<char>>)
    ensures
        join_lines(a + b) == join_lines(a) + join_lines(b),
    decreases b.len(),
{
    if b.len() == 0 {
        assert(a + b =~= a);
        assert(join_lines(a) + join_lines(b) =~= join_lines(a));
    } else {
        lemma_join_lines_concat(a, b.drop_last());
        assert((a + b).drop_last() =~= a + b.drop_last());
        assert((a + b).last() == b.last());
        assert(join_lines(a + b) =~= join_lines(a) + join_lines(b));
    }
}

/// Reading back what `join_lines` wrote gives the lines again, as long as
/// none of them holds a line feed; a carriage return at the end of a line
/// is then read as part of its ending.
pub proof fn lemma_split_joined_lines(lines: Seq<Seq<char>>)
    requires
        forall|i: int| 0 <= i < lines.len() ==> !(#[trigger] lines[i]).contains('\n'),
    ensures
        split_lines(join_lines(lines)) == read_back(lines),
    decreases lines.len(),
{
    let strip = |line: Seq<char>| without_carriage_return(line);
    if lines.len() == 0 {
        assert(lines.map_values(strip) =~= Seq::empty());
    } else {
        let front = lines.drop_last();
        let line = lines.last();
        let ended = line.push('\n');
        lemma_split_joined_lines(front);
        assert(join_lines(front).len() > 0 ==> join_lines(front).last() == '\n');
        lemma_split_lines_concat(join_lines(front), ended);
        assert forall|i: int| 0 <= i < line.len() implies ended[i] != '\n' by {
            assert(line.contains(line[i]));
        }
        lemma_line_end_at(ended, line.len() as int);
        assert(ended.take(line.len() as int) =~= line);
        assert(ended.skip(line.len() as int + 1) =~= Seq::empty());
        assert(split_lines(ended.skip(line.len() as int + 1)) =~= Seq::empty());
        assert(split_lines(ended) =~= seq![without_carriage_return(line)]);
        assert(lines.map_values(strip) =~= front.map_values(strip) + seq![
            without_carriage_return(line),
        ]);
    }
}

/// Entries that are trimmed and hold no line feed are stored as they are:
/// the text that holds them one per line, after a text that is empty or ends
/// with a line feed, stores what that text stores and then these entries.
pub proof fn lemma_stored_entries_append(content: Seq<char>, entries: Seq<Seq<char>>)
    requires
        content.len() == 0 || content.last() == '\n',
        forall|i: int|
            0 <= i < entries.len() ==> is_trimmed(#[trigger] entries[i]) && !entries[i].contains(
                '\n',
            ),
    ensures
        stored_entries(content + join_lines(entries)) == stored_entries(content) + entries,
{
    lemma_split_lines_concat(content, join_lines(entries));
    lemma_split_joined_lines(entries);
    lemma_kept_entries_concat(split_lines(content), read_back(entries));
    lemma_kept_entries_unchanged(entries);
    assert(read_back(entries) =~= entries);
}

} // verus!
