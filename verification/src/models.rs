//! The record types: credential entries and the record set the vault
//! persists, and the task items of the task-list utility.

use vstd::prelude::*;

verus! {

/// One credential: which service, which account, and its secret.
pub struct PasswordEntry {
    pub service: String,
    pub username: String,
    pub password: String,
}

/// The mathematical content of a [`PasswordEntry`]: its three text fields.
pub struct EntryView {
    pub service: Seq<char>,
    pub username: Seq<char>,
    pub password: Seq<char>,
}

impl View for PasswordEntry {
    type V = EntryView;

    open spec fn view(&self) -> EntryView {
        EntryView { service: self.service@, username: self.username@, password: self.password@ }
    }
}

/// The sequence of field views of a sequence of entries.
pub open spec fn entries_view(es: Seq<PasswordEntry>) -> Seq<EntryView> {
    es.map_values(|e: PasswordEntry| e@)
}

/// The ordered record set the vault persists: entries in insertion order,
/// duplicates permitted.
pub struct PasswordStore {
    pub entries: Vec<PasswordEntry>,
}

impl View for PasswordStore {
    type V = Seq<EntryView>;

    open spec fn view(&self) -> Seq<EntryView> {
        entries_view(self.entries@)
    }
}

/// One task of the task-list utility.
pub struct Task {
    pub id: u32,
    pub description: String,
    pub completed: bool,
}

} // verus!
