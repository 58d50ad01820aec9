//! The history store: an ordered log of the commands that a user entered,
//! oldest first, which remembers how many of them its backing file already
//! holds.
//!
//! A store is made from the text of its file, takes the commands of one
//! session, and ends with [`History::release`], which hands out the text that
//! the session adds to the file. The store itself reads and writes nothing.
use crate::lines::{
    is_trimmed, join_lines, lemma_stored_entries_append, lemma_stored_entries_trimmed,
    lemma_views_push, read_entries, stored_entries, views, write_lines,
};
use std::path::PathBuf;
use vstd::prelude::*;
use vstd::std_specs::iter::IteratorSpec;

verus! {

/// `std::path::PathBuf`, an owned path in the file system. The library keeps
/// and returns such a path and never looks inside it.
#[verifier::external_type_specification]
#[verifier::external_body]
pub struct ExPathBuf(PathBuf);

/// A log of commands, oldest first.
pub struct History {
    path: Option<PathBuf>,
    start_len: usize,
    history: Vec<String>,
}

/// What is owed to the backing file when a store ends.
pub struct Flush {
    /// The file to open for appending, and to create where it is missing.
    pub path: PathBuf,
    /// The text to append to it.
    pub text: String,
}

/// The log after `command` was pushed onto `entries`: a command equal to the
/// most recent entry is not stored again.
pub open spec fn pushed(entries: Seq<Seq<char>>, command: Seq<char>) -> Seq<Seq<char>> {
    if entries.len() > 0 && entries.last() == command {
        entries
    } else {
        entries.push(command)
    }
}

/// The entry `offset` steps back from the most recent one. Beyond the oldest
/// entry the oldest is recalled; only an empty log recalls nothing.
pub open spec fn recalled(entries: Seq<Seq<char>>, offset: nat) -> Option<Seq<char>> {
    if entries.len() == 0 {
        None
    } else if offset < entries.len() {
        Some(entries[entries.len() - 1 - offset])
    } else {
        Some(entries.first())
    }
}

/// Pushing a command a second time changes nothing: the log then ends with
/// that command, stored once.
pub proof fn lemma_push_twice(entries: Seq<Seq<char>>, command: Seq<char>)
    ensures
        pushed(entries, command).last() == command,
        pushed(pushed(entries, command), command) == pushed(entries, command),
{
}

/// A command is stored again after another one: pushing `first`, `second`
/// and `first` again stores all three where the two differ, each behind the
/// other.
pub proof fn lemma_push_again_later(
    entries: Seq<Seq<char>>,
    first: Seq<char>,
    second: Seq<char>,
)
    requires
        first != second,
    ensures
        pushed(pushed(pushed(entries, first), second), first) == pushed(entries, first).push(
            second,
        ).push(first),
{
}

/// A push never shortens the log, lengthens it by one entry at most, and
/// leaves every entry that was there in its place.
pub proof fn lemma_push_keeps_entries(entries: Seq<Seq<char>>, command: Seq<char>)
    ensures
        entries.len() <= pushed(entries, command).len() <= entries.len() + 1,
        pushed(entries, command).take(entries.len() as int) == entries,
{
    assert(pushed(entries, command).take(entries.len() as int) =~= entries);
}

/// Beyond the oldest entry the oldest entry is recalled, and without an
/// offset the most recent.
pub proof fn lemma_recall_is_clamped(entries: Seq<Seq<char>>, offset: nat)
    requires
        entries.len() > 0,
    ensures
        recalled(entries, 0) == Some(entries.last()),
        offset >= entries.len() - 1 ==> recalled(entries, offset) == Some(entries.first()),
        recalled(entries, offset) is Some,
{
}

impl History {
    /// The file that backs the store, if any.
    pub closed spec fn backing_path(&self) -> Option<PathBuf> {
        self.path
    }

    /// How many entries the backing file held when the store was made.
    pub closed spec fn persisted_count(&self) -> nat {
        self.start_len as nat
    }

    /// The entries, oldest first.
    pub closed spec fn entries(&self) -> Seq<Seq<char>> {
        views(self.history@)
    }

    /// The entries that the backing file does not hold yet, oldest first.
    pub open spec fn pending(&self) -> Seq<Seq<char>> {
        self.entries().skip(self.persisted_count() as int)
    }

    /// What holds of every store: the persisted entries are a prefix of the
    /// log, each of them is trimmed, and no entry pushed since repeats the
    /// entry before it.
    pub open spec fn wf(&self) -> bool {
        &&& self.persisted_count() <= self.entries().len()
        &&& forall|i: int|
            0 <= i < self.persisted_count() ==> is_trimmed(#[trigger] self.entries()[i])
        &&& forall|i: int|
            0 < i && self.persisted_count() <= i < self.entries().len() ==> self.entries()[i - 1]
                != #[trigger] self.entries()[i]
    }

    /// A store that was given no command since it was made owes its file
    /// nothing: the text to append is empty.
    pub proof fn lemma_nothing_pending(self)
        requires
            self.persisted_count() == self.entries().len(),
        ensures
            self.pending() == Seq::<Seq<char>>::empty(),
            join_lines(self.pending()) == Seq::<char>::empty(),
    {
        assert(self.pending() =~= Seq::empty());
    }

    /// Appending the pending entries to the file and loading the file again
    /// gives the entries of the store. This holds where the file's text
    /// `content`, from which the persisted entries were read, is empty or ends
    /// with a line feed, and where each pending entry is trimmed and holds no
    /// line feed, so that it fits on a line of its own.
    pub proof fn lemma_flush_then_reload(self, content: Seq<char>)
        requires
            self.wf(),
            content.len() == 0 || content.last() == '\n',
            self.entries().take(self.persisted_count() as int) == stored_entries(content),
            forall|i: int|
                0 <= i < self.pending().len() ==> is_trimmed(#[trigger] self.pending()[i])
                    && !self.pending()[i].contains('\n'),
        ensures
            stored_entries(content + join_lines(self.pending())) == self.entries(),
    {
        lemma_stored_entries_append(content, self.pending());
        assert(self.entries().take(self.persisted_count() as int) + self.pending()
            =~= self.entries());
    }

    /// The store for the file at `path`, whose text is `content`, or `None`
    /// where the file could not be read. The store holds the entries that the
    /// text stores, and counts all of them as persisted. A file that could
    /// not be read gives an empty store.
    pub fn from_file(path: PathBuf, content: Option<&str>) -> (store: Self)
        ensures
            store.wf(),
            store.backing_path() == Some(path),
            store.entries() == match content {
                Some(text) => stored_entries(text@),
                None => Seq::empty(),
            },
            store.persisted_count() == store.entries().len(),
    {
        let history = match content {
            Some(text) => {
                proof {
                    lemma_stored_entries_trimmed(text@);
                }
                read_entries(text)
            },
            None => {
                let empty: Vec<String> = Vec::new();
                proof {
                    assert(views(empty@) =~= Seq::empty());
                }
                empty
            },
        };
        History { path: Some(path), start_len: history.len(), history }
    }

    /// A store without a backing file, and without entries.
    pub fn in_memory() -> (store: Self)
        ensures
            store.wf(),
            store.backing_path() is None,
            store.persisted_count() == 0,
            store.entries() == Seq::<Seq<char>>::empty(),
    {
        let store = History { path: None, start_len: 0, history: Vec::new() };
        proof {
            assert(store.entries() =~= Seq::empty());
        }
        store
    }

    /// Appends `cmd` to the log, unless it equals the most recent entry.
    pub fn push(&mut self, cmd: String)
        requires
            old(self).wf(),
        ensures
            final(self).wf(),
            final(self).backing_path() == old(self).backing_path(),
            final(self).persisted_count() == old(self).persisted_count(),
            final(self).entries() == pushed(old(self).entries(), cmd@),
    {
        let repeats = match self.history.last() {
            Some(last) => *last == cmd,
            None => false,
        };
        if !repeats {
            proof {
                lemma_views_push(self.history@, cmd);
            }
            self.history.push(cmd);
        }
    }

    /// The entry `idx` steps back from the most recent one, the oldest entry
    /// where `idx` reaches beyond it, and `None` only where the log is empty.
    pub fn get(&self, idx: usize) -> (entry: Option<&String>)
        ensures
            match entry {
                Some(found) => recalled(self.entries(), idx as nat) == Some(found@),
                None => recalled(self.entries(), idx as nat) is None,
            },
    {
        let idx = self.history.len().saturating_sub(1).saturating_sub(idx);
        if idx < self.history.len() {
            Some(&self.history[idx])
        } else {
            None
        }
    }

    /// Walks the entries from the most recent to the oldest. The store is not
    /// changed, so every walk yields the same entries.
    pub fn iter(&self) -> (walk: impl Iterator<Item = &String>)
        ensures
            walk.obeys_prophetic_iter_laws(),
            walk.decrease() is Some,
            walk.initial_value_relation(&walk),
            walk.remaining().map_values(|entry: &String| entry@) == self.entries().reverse(),
    {
        let walk = self.history.iter().rev();
        proof {
            assert(walk.remaining().map_values(|entry: &String| entry@)
                =~= self.entries().reverse());
        }
        walk
    }

    /// Ends the store. Where it has a backing file, the result names the file
    /// and holds the text to append to it: the pending entries, one per line,
    /// oldest first. A store without a backing file owes nothing.
    pub fn release(self) -> (flush: Option<Flush>)
        requires
            self.wf(),
        ensures
            match self.backing_path() {
                Some(path) => flush is Some && flush->0.path == path && flush->0.text@
                    == join_lines(self.pending()),
                None => flush is None,
            },
    {
        match self.path {
            Some(path) => {
                let text = write_lines(self.history.as_slice(), self.start_len);
                Some(Flush { path, text })
            },
            None => None,
        }
    }
}

} // verus!
