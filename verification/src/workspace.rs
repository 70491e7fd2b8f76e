//! The open documents, each under its identifier.
//!
//! The documents are kept in a `DashMap`. Its methods take a shared
//! reference; the workspace calls those that change it through an exclusive
//! one, so that what the map holds between two calls is what the first call
//! left, and no call waits for a reference into the map that is still held.

use dashmap::DashMap;
use vstd::prelude::*;
use vstd::string::*;
use crate::file::{changed_text, Change, File};

verus! {

/// The map of the `dashmap` crate, of which nothing is known but what the
/// functions below state.
#[verifier::external_type_specification]
#[verifier::external_body]
#[verifier::reject_recursive_types(K)]
#[verifier::reject_recursive_types(V)]
#[verifier::reject_recursive_types(S)]
pub struct ExDashMap<K, V, S>(DashMap<K, V, S>);

/// What a map of documents holds: under each key the identifier and the text
/// of the document stored there.
pub uninterp spec fn entries(files: DashMap<String, File>) -> Map<Seq<char>, (Seq<char>, Seq<char>)>;

/// What stands for a document in [`entries`]: its identifier and its text.
pub open spec fn entry_of(file: File) -> (Seq<char>, Seq<char>) {
    (file.url@, file.content@)
}

/// The entries of a map that holds nothing.
pub open spec fn no_entries() -> Map<Seq<char>, (Seq<char>, Seq<char>)> {
    Map::empty()
}

/// `DashMap::new`: a map that holds nothing.
#[verifier::external_body]
fn new_files() -> (files: DashMap<String, File>)
    ensures
        entries(files) == no_entries(),
{
    DashMap::new()
}

/// `DashMap::insert`: afterwards the map holds `file` under `key`, in place
/// of what it held there, and everything else as before. What the call hands
/// back, the document that was held there, is dropped.
#[verifier::external_body]
fn put_file(files: &mut DashMap<String, File>, key: String, file: File)
    ensures
        entries(*final(files)) == entries(*old(files)).insert(key@, entry_of(file)),
{
    files.insert(key, file);
}

/// `DashMap::remove`: hands out the key and the document that the map held
/// under `key`, of which the document is passed on, and holds them no longer;
/// where it held none, nothing changes.
#[verifier::external_body]
fn take_file(files: &mut DashMap<String, File>, key: &String) -> (taken: Option<File>)
    ensures
        entries(*final(files)) == entries(*old(files)).remove(key@),
        match taken {
            Some(file) => entries(*old(files)).contains_key(key@) && entries(*old(files))[key@]
                == entry_of(file),
            None => !entries(*old(files)).contains_key(key@),
        },
{
    files.remove(key).map(|(_, file)| file)
}

/// The open documents.
pub struct Workspace {
    pub files: DashMap<String, File>,
}

/// A change was asked for a document that is not open.
#[derive(Debug)]
pub struct UnknownDocument {
    pub url: String,
}

impl UnknownDocument {
    /// What the error says of the document `url`.
    pub open spec fn message_for(url: Seq<char>) -> Seq<char> {
        "The file "@ + url + " is not opened on the server."@
    }

    /// The error in words.
    pub fn message(&self) -> (text: String)
        ensures
            text@ == Self::message_for(self.url@),
    {
        let mut text = "The file ".to_owned();
        text.append(self.url.as_str());
        text.append(" is not opened on the server.");
        text
    }
}

/// The text that `changes`, applied one after the other, make of `text`.
pub open spec fn changed_by_all(text: Seq<char>, changes: Seq<Change>) -> Seq<char>
    decreases changes.len(),
{
    if changes.len() == 0 {
        text
    } else {
        changed_text(changed_by_all(text, changes.drop_last()), changes.last())
    }
}

impl View for Workspace {
    type V = Map<Seq<char>, (Seq<char>, Seq<char>)>;

    /// The open documents: under each identifier the identifier and text of
    /// the document.
    open spec fn view(&self) -> Map<Seq<char>, (Seq<char>, Seq<char>)> {
        entries(self.files)
    }
}

impl Workspace {
    /// Whether every document is kept under its own identifier.
    pub open spec fn well_formed(&self) -> bool {
        forall|key: Seq<char>| #[trigger] self@.contains_key(key) ==> self@[key].0 == key
    }

    /// A workspace with no open document.
    pub fn new() -> (workspace: Workspace)
        ensures
            workspace@ == no_entries(),
            workspace.well_formed(),
    {
        Workspace { files: new_files() }
    }

    /// Opens the document `uri` with `text`; a document open under the same
    /// identifier gives way to it.
    pub fn open(&mut self, uri: String, text: String)
        ensures
            final(self)@ == old(self)@.insert(uri@, (uri@, text@)),
            old(self).well_formed() ==> final(self).well_formed(),
    {
        let file = File::new(uri, text);
        let key = file.url.clone();
        put_file(&mut self.files, key, file);
        proof {
            if old(self).well_formed() {
                assert forall|key: Seq<char>| #[trigger]
                    self@.contains_key(key) implies self@[key].0 == key by {
                    if key != uri@ {
                        assert(old(self)@.contains_key(key));
                    }
                }
            }
        }
    }

    /// Closes the document `uri`; closing one that is not open changes
    /// nothing.
    pub fn close(&mut self, uri: &String)
        ensures
            final(self)@ == old(self)@.remove(uri@),
            old(self).well_formed() ==> final(self).well_formed(),
    {
        let _ = take_file(&mut self.files, uri);
        proof {
            if old(self).well_formed() {
                assert forall|key: Seq<char>| #[trigger]
                    self@.contains_key(key) implies self@[key].0 == key by {
                    assert(old(self)@.contains_key(key));
                }
            }
        }
    }

    /// Applies `content_changes` to the document `uri`, in their order, each
    /// to the text that the one before left. Fails, and changes nothing, where
    /// the document is not open.
    pub fn apply_changes(&mut self, uri: &String, content_changes: Vec<Change>) -> (done: Result<
        (),
        UnknownDocument,
    >)
        ensures
            old(self).well_formed() ==> final(self).well_formed(),
            match done {
                Ok(_) => {
                    &&& old(self)@.contains_key(uri@)
                    &&& final(self)@ == old(self)@.insert(
                        uri@,
                        (
                            old(self)@[uri@].0,
                            changed_by_all(old(self)@[uri@].1, content_changes@),
                        ),
                    )
                },
                Err(error) => {
                    &&& !old(self)@.contains_key(uri@)
                    &&& final(self)@ == old(self)@
                    &&& error.url@ == uri@
                },
            },
    {
        let mut file = match take_file(&mut self.files, uri) {
            Some(file) => file,
            None => {
                proof {
                    assert(old(self)@.remove(uri@) =~= old(self)@);
                }
                return Err(UnknownDocument { url: uri.clone() });
            },
        };
        let ghost first = file.content@;
        let mut pending = content_changes;
        let ghost all = content_changes@;
        let ghost mut i: int = 0;
        proof {
            assert(all.subrange(0, 0) =~= Seq::<Change>::empty());
            assert(all.subrange(0, all.len() as int) =~= all);
        }
        while pending.len() > 0
            invariant
                0 <= i <= all.len(),
                pending@ == all.subrange(i, all.len() as int),
                file.url@ == old(self)@[uri@].0,
                file.content@ == changed_by_all(first, all.subrange(0, i)),
            decreases pending@.len(),
        {
            proof {
                assert(all.subrange(0, i + 1).drop_last() =~= all.subrange(0, i));
                assert(pending@.remove(0) =~= all.subrange(i + 1, all.len() as int));
            }
            let change = pending.remove(0);
            file.apply_change(change);
            proof {
                i = i + 1;
            }
        }
        proof {
            assert(all.subrange(0, i) =~= all);
        }
        put_file(&mut self.files, uri.clone(), file);
        proof {
            assert(old(self)@.remove(uri@).insert(uri@, entry_of(file)) =~= old(self)@.insert(
                uri@,
                entry_of(file),
            ));
        }
        Ok(())
    }
}

} // verus!
