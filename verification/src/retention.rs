//! The retention enforcer: trims a line-oriented text to its last lines, so
//! that the file that holds it cannot grow without bound.
use crate::lines::{
    append_chars, collect_chars, join_lines, kept_entries, lemma_join_lines_concat,
    lemma_kept_entries_concat, lemma_kept_entries_of_read_back, lemma_split_joined_lines,
    lemma_split_lines_hold_no_line_feed, next_line, read_back, split_lines, stored_entries,
};
use vstd::prelude::*;

verus! {

/// What is to be written in place of `text` at a limit of `limit` lines:
/// nothing where the text has no more lines than that, else its last `limit`
/// lines, each followed by a line feed.
pub open spec fn retained(text: Seq<char>, limit: nat) -> Option<Seq<char>> {
    let lines = split_lines(text);
    if lines.len() <= limit {
        None
    } else {
        Some(join_lines(lines.skip(lines.len() - limit)))
    }
}

/// Trims `content` to its last `limit` lines. Returns the text to write in its
/// place, or `None` where `content` has no more than `limit` lines and is to
/// be left as it is.
pub fn enforce_line_limit(content: &str, limit: usize) -> (kept: Option<String>)
    ensures
        match kept {
            Some(text) => retained(content@, limit as nat) == Some(text@),
            None => retained(content@, limit as nat) is None,
        },
{
    let chars = collect_chars(content);
    let lines = count_lines(&chars);
    if lines > limit {
        let skips = lines - limit;
        let from = skip_lines(&chars, skips);
        Some(rewrite_lines(&chars, from))
    } else {
        None
    }
}

/// The number of lines in `chars`.
fn count_lines(chars: &[char]) -> (count: usize)
    ensures
        count == split_lines(chars@).len(),
{
    let mut count: usize = 0;
    let mut pos: usize = 0;
    proof {
        assert(chars@.skip(0) =~= chars@);
    }
    while pos < chars.len()
        invariant
            count <= pos <= chars.len(),
            count + split_lines(chars@.skip(pos as int)).len() == split_lines(chars@).len(),
        decreases chars.len() - pos,
    {
        let (_, next) = next_line(chars, pos);
        count += 1;
        pos = next;
    }
    proof {
        assert(chars@.skip(pos as int) =~= Seq::empty());
    }
    count
}

/// The position at which the line of index `n` starts, counted from 0, or
/// the end of `chars` where it has just `n` lines.
fn skip_lines(chars: &[char], n: usize) -> (pos: usize)
    requires
        n <= split_lines(chars@).len(),
    ensures
        pos <= chars.len(),
        split_lines(chars@.skip(pos as int)) == split_lines(chars@).skip(n as int),
{
    let mut done: usize = 0;
    let mut pos: usize = 0;
    proof {
        assert(chars@.skip(0) =~= chars@);
        assert(split_lines(chars@).skip(0) =~= split_lines(chars@));
    }
    while done < n
        invariant
            done <= n <= split_lines(chars@).len(),
            pos <= chars.len(),
            split_lines(chars@.skip(pos as int)) == split_lines(chars@).skip(done as int),
        decreases n - done,
    {
        proof {
            if pos == chars.len() {
                assert(chars@.skip(pos as int) =~= Seq::empty());
            }
        }
        let (_, next) = next_line(chars, pos);
        proof {
            assert(split_lines(chars@.skip(pos as int)).skip(1) =~= split_lines(
                chars@.skip(next as int),
            ));
            assert(split_lines(chars@).skip(done as int).skip(1) =~= split_lines(chars@).skip(
                done + 1,
            ));
        }
        done += 1;
        pos = next;
    }
    pos
}

/// The lines of `chars` from `from` on, each followed by a line feed.
fn rewrite_lines(chars: &[char], from: usize) -> (text: String)
    requires
        from <= chars.len(),
    ensures
        text@ == join_lines(split_lines(chars@.skip(from as int))),
{
    let mut text = String::new();
    let mut pos = from;
    let ghost all = join_lines(split_lines(chars@.skip(from as int)));
    proof {
        assert(text@ + all =~= all);
    }
    while pos < chars.len()
        invariant
            from <= pos <= chars.len(),
            all == join_lines(split_lines(chars@.skip(from as int))),
            text@ + join_lines(split_lines(chars@.skip(pos as int))) == all,
        decreases chars.len() - pos,
    {
        let ghost before = text@;
        let (stop, next) = next_line(chars, pos);
        append_chars(&mut text, chars, pos, stop);
        text.push('\n');
        proof {
            let line = chars@.subrange(pos as int, stop as int);
            let rest = split_lines(chars@.skip(next as int));
            lemma_join_lines_concat(seq![line], rest);
            assert(seq![line].drop_last() =~= Seq::empty());
            assert(join_lines(seq![line]) =~= line.push('\n')) by {
                reveal_with_fuel(join_lines, 2);
            }
            assert(text@ + join_lines(rest) =~= before + (line.push('\n') + join_lines(rest)));
        }
        pos = next;
    }
    proof {
        assert(chars@.skip(pos as int) =~= Seq::empty());
        assert(text@ + Seq::<char>::empty() =~= text@);
    }
    text
}

/// A text that was trimmed holds exactly `limit` lines, which are the last
/// `limit` lines of the text it was made from, in their order. Trimming it
/// again at the same limit leaves it as it is.
pub proof fn lemma_retained_is_stable(text: Seq<char>, limit: nat)
    requires
        retained(text, limit) is Some,
    ensures
        split_lines(retained(text, limit)->0) == read_back(
            split_lines(text).skip(split_lines(text).len() - limit),
        ),
        split_lines(retained(text, limit)->0).len() == limit,
        retained(retained(text, limit)->0, limit) is None,
{
    let last = split_lines(text).skip(split_lines(text).len() - limit);
    lemma_split_lines_hold_no_line_feed(text);
    lemma_split_joined_lines(last);
}

/// Trimming a history file drops its oldest entries only: the entries that
/// the file stored are those that its dropped lines gave, and then those that
/// the trimmed file stores.
pub proof fn lemma_retained_stores_latest_entries(text: Seq<char>, limit: nat)
    requires
        retained(text, limit) is Some,
    ensures
        stored_entries(text) == kept_entries(
            split_lines(text).take(split_lines(text).len() - limit),
        ) + stored_entries(retained(text, limit)->0),
{
    let lines = split_lines(text);
    let dropped = lines.take(lines.len() - limit);
    let last = lines.skip(lines.len() - limit);
    lemma_retained_is_stable(text, limit);
    lemma_kept_entries_of_read_back(last);
    lemma_kept_entries_concat(dropped, last);
    assert(lines =~= dropped + last);
}

} // verus!
