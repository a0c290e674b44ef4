//! The vault store: converts between the in-memory record set and its
//! encrypted on-disk blob, and offers a password generator. All
//! confidentiality and integrity comes from the key/cipher manager; the
//! caller layer does the file reads and writes and hands the bytes in.

use rand::Rng;

use crate::codec::{
    encode_field_bytes, encode_store, entry_fits, lemma_encode_store_push, lemma_store_round_trip,
    parse_entries_at, parse_store,
};
use crate::crypto::{decrypt_text_spec, CryptoManager};
use crate::errors::{LoadError, SaveError};
use crate::models::{entries_view, EntryView, PasswordEntry, PasswordStore};
use crate::text::{bytes_to_string, lemma_ascii_bytes_decode};
use vstd::prelude::*;
use vstd::utf8::encode_utf8;

verus! {

/// Relies on `Rng::gen_range` of the rand crate over the thread-local
/// generator: a uniformly random index below `n`, freshly drawn on every
/// call. Nothing is promised about the value beyond its bound.
#[verifier::external_body]
fn random_below(n: usize) -> (r: usize)
    requires
        n > 0,
    ensures
        r < n,
{
    rand::thread_rng().gen_range(0..n)
}

/// A byte of the password alphabet: uppercase and lowercase letters, digits,
/// and a fixed set of punctuation symbols.
pub open spec fn in_alphabet_byte(b: u8) -> bool {
    ||| 0x41 <= b <= 0x5a
    ||| 0x61 <= b <= 0x7a
    ||| 0x30 <= b <= 0x39
    ||| b == 0x21 || b == 0x40 || b == 0x23 || b == 0x24 || b == 0x25 || b == 0x5e || b == 0x26
        || b == 0x2a || b == 0x28 || b == 0x29 || b == 0x2d || b == 0x5f || b == 0x3d || b == 0x2b
        || b == 0x5b || b == 0x5d || b == 0x7b || b == 0x7d || b == 0x7c || b == 0x3b || b == 0x3a
        || b == 0x2c || b == 0x2e || b == 0x3c || b == 0x3e || b == 0x3f
}

/// A character of the password alphabet.
pub open spec fn in_alphabet(c: char) -> bool {
    c as u32 <= 0x7f && in_alphabet_byte(c as u8)
}

/// The password alphabet as bytes: 26 uppercase letters, 26 lowercase
/// letters, 10 digits and 26 punctuation symbols.
fn alphabet_bytes() -> (v: Vec<u8>)
    ensures
        v@.len() == 88,
        forall|k: int| 0 <= k < v@.len() ==> in_alphabet_byte(#[trigger] v@[k]),
{
    let mut v: Vec<u8> = Vec::new();
    let mut c: u8 = 0x41;
    while c <= 0x5a
        invariant
            0x41 <= c <= 0x5b,
            v@.len() == c - 0x41,
            forall|k: int| 0 <= k < v@.len() ==> in_alphabet_byte(#[trigger] v@[k]),
        decreases 0x5b - c,
    {
        v.push(c);
        c += 1;
    }
    let mut c: u8 = 0x61;
    while c <= 0x7a
        invariant
            0x61 <= c <= 0x7b,
            v@.len() == 26 + c - 0x61,
            forall|k: int| 0 <= k < v@.len() ==> in_alphabet_byte(#[trigger] v@[k]),
        decreases 0x7b - c,
    {
        v.push(c);
        c += 1;
    }
    let mut c: u8 = 0x30;
    while c <= 0x39
        invariant
            0x30 <= c <= 0x3a,
            v@.len() == 52 + c - 0x30,
            forall|k: int| 0 <= k < v@.len() ==> in_alphabet_byte(#[trigger] v@[k]),
        decreases 0x3a - c,
    {
        v.push(c);
        c += 1;
    }
    v.push(0x21);
    v.push(0x40);
    v.push(0x23);
    v.push(0x24);
    v.push(0x25);
    v.push(0x5e);
    v.push(0x26);
    v.push(0x2a);
    v.push(0x28);
    v.push(0x29);
    v.push(0x2d);
    v.push(0x5f);
    v.push(0x3d);
    v.push(0x2b);
    v.push(0x5b);
    v.push(0x5d);
    v.push(0x7b);
    v.push(0x7d);
    v.push(0x7c);
    v.push(0x3b);
    v.push(0x3a);
    v.push(0x2c);
    v.push(0x2e);
    v.push(0x3c);
    v.push(0x3e);
    v.push(0x3f);
    v
}

/// The index of the first entry whose service matches, or -1 if none does.
pub open spec fn first_match(es: Seq<EntryView>, service: Seq<char>) -> int
    decreases es.len(),
{
    if es.len() == 0 {
        -1
    } else if es[0].service == service {
        0
    } else {
        let r = first_match(es.drop_first(), service);
        if r < 0 {
            -1
        } else {
            r + 1
        }
    }
}

/// If no entry before position `i` matches, and the one at `i` does (or `i`
/// is the end), then `i` is where the first match stands (or there is none).
proof fn lemma_first_match(es: Seq<EntryView>, service: Seq<char>, i: int)
    requires
        0 <= i <= es.len(),
        forall|k: int| 0 <= k < i ==> #[trigger] es[k].service != service,
        i < es.len() ==> es[i].service == service,
    ensures
        first_match(es, service) == if i == es.len() {
            -1
        } else {
            i
        },
    decreases es.len(),
{
    if es.len() > 0 {
        if i == 0 {
        } else {
            assert(es[0].service != service);
            let tail = es.drop_first();
            assert(forall|k: int| 0 <= k < i - 1 ==> #[trigger] tail[k].service != service) by {
                assert(forall|k: int| 0 <= k < tail.len() ==> tail[k] == es[k + 1]);
            }
            assert(i - 1 < tail.len() ==> tail[i - 1].service == service);
            lemma_first_match(tail, service, i - 1);
        }
    }
}

/// The record set with every entry of the given service removed.
pub open spec fn remove_matching(es: Seq<EntryView>, service: Seq<char>) -> Seq<EntryView> {
    es.filter(|ev: EntryView| ev.service != service)
}

impl PasswordStore {
    /// An empty record set.
    pub fn new() -> (r: PasswordStore)
        ensures
            r@ == Seq::<EntryView>::empty(),
    {
        let r = PasswordStore { entries: Vec::new() };
        proof {
            assert(r@ =~= Seq::<EntryView>::empty());
        }
        r
    }

    /// Appends one entry; duplicates of an existing service are permitted.
    pub fn add_entry(&mut self, entry: PasswordEntry)
        ensures
            final(self)@ == old(self)@.push(entry@),
    {
        let ghost ev = entry@;
        self.entries.push(entry);
        proof {
            assert(final(self)@ =~= old(self)@.push(ev));
        }
    }

    /// The first entry of the given service, if any.
    pub fn find_entry(&self, service: &String) -> (r: Option<PasswordEntry>)
        ensures
            r is Some <==> first_match(self@, service@) >= 0,
            r matches Some(e) ==> e@ == self@[first_match(self@, service@)],
    {
        let n = self.entries.len();
        let mut i: usize = 0;
        while i < n
            invariant
                0 <= i <= n == self.entries@.len(),
                forall|k: int| 0 <= k < i ==> #[trigger] self@[k].service != service@,
            decreases n - i,
        {
            let e = &self.entries[i];
            if e.service == *service {
                proof {
                    lemma_first_match(self@, service@, i as int);
                }
                return Some(
                    PasswordEntry {
                        service: e.service.clone(),
                        username: e.username.clone(),
                        password: e.password.clone(),
                    },
                );
            }
            i += 1;
        }
        proof {
            lemma_first_match(self@, service@, n as int);
        }
        None
    }

    /// Removes every entry of the given service, keeping the order of the
    /// rest; removing a service that is not present leaves the set as it is.
    pub fn remove_service(&mut self, service: &String)
        ensures
            final(self)@ == remove_matching(old(self)@, service@),
    {
        let ghost pred = |ev: EntryView| ev.service != service@;
        let mut kept: Vec<PasswordEntry> = Vec::new();
        let n = self.entries.len();
        let mut i: usize = 0;
        while i < n
            invariant
                0 <= i <= n == self.entries@.len(),
                entries_view(kept@) == old(self)@.take(i as int).filter(pred),
                self.entries@ == old(self).entries@,
                pred == (|ev: EntryView| ev.service != service@),
            decreases n - i,
        {
            let ghost prefix = old(self)@.take(i as int);
            let e = &self.entries[i];
            if !(e.service == *service) {
                kept.push(
                    PasswordEntry {
                        service: e.service.clone(),
                        username: e.username.clone(),
                        password: e.password.clone(),
                    },
                );
            }
            i += 1;
            proof {
                let prefix2 = old(self)@.take(i as int);
                assert(prefix2 =~= prefix.push(old(self)@[i - 1]));
                assert(prefix2.drop_last() =~= prefix);
                reveal(Seq::filter);
                if pred(old(self)@[i - 1]) {
                    assert(entries_view(kept@) =~= prefix.filter(pred).push(old(self)@[i - 1]));
                } else {
                    assert(entries_view(kept@) =~= prefix.filter(pred));
                }
            }
        }
        proof {
            assert(old(self)@.take(n as int) =~= old(self)@);
        }
        self.entries = kept;
    }
}

/// What loading yields for a given key and file content: no file is an
/// empty record set; a failed decryption or non-text plaintext is
/// unauthorized (wrong passphrase and corruption alike); text that does not
/// parse is corrupt; and otherwise the parsed record set.
pub open spec fn load_spec(key: Seq<u8>, file: Option<Seq<u8>>) -> Result<
    Seq<EntryView>,
    LoadError,
> {
    match file {
        None => Ok(Seq::empty()),
        Some(blob) => match decrypt_text_spec(key, blob) {
            Err(_) => Err(LoadError::Unauthorized),
            Ok(text) => match parse_store(encode_utf8(text)) {
                None => Err(LoadError::Corrupt),
                Some(es) => Ok(es),
            },
        },
    }
}

/// The file content handed to [`Storage::load`], as a byte sequence.
pub open spec fn file_view(file: Option<&[u8]>) -> Option<Seq<u8>> {
    match file {
        None => None,
        Some(b) => Some(b@),
    }
}

/// Owns the conversion between the record set and its encrypted form. The
/// key/cipher manager is constructed once and moved in, so the key's
/// lifetime stays auditable.
pub struct Storage {
    pub crypto: CryptoManager,
}

impl Storage {
    /// Rebuilds the record set from the vault file's bytes, or from their
    /// absence: no file means an empty record set and no error (first run).
    /// Every decryption failure surfaces as `Unauthorized`, whether the
    /// passphrase was wrong or the file was tampered with; text that does
    /// not parse as records surfaces as `Corrupt`.
    pub fn load(&self, file: Option<&[u8]>) -> (r: Result<PasswordStore, LoadError>)
        requires
            self.crypto.wf(),
        ensures
            match r {
                Ok(store) => load_spec(self.crypto@, file_view(file)) == Ok::<_, LoadError>(
                    store@,
                ),
                Err(e) => load_spec(self.crypto@, file_view(file)) == Err::<Seq<EntryView>, _>(e),
            },
    {
        match file {
            None => Ok(PasswordStore::new()),
            Some(blob) => match self.crypto.decrypt_to_text(blob) {
                Err(_) => Err(LoadError::Unauthorized),
                Ok(text) => {
                    let tb = text.as_str().as_bytes();
                    proof {
                        assert(tb@.skip(0) =~= tb@);
                    }
                    match parse_entries_at(tb, 0) {
                        None => Err(LoadError::Corrupt),
                        Some(entries) => Ok(PasswordStore { entries }),
                    }
                },
            },
        }
    }

    /// Serializes the record set to its canonical text form, encrypts it
    /// under a fresh nonce, and returns the blob to be written over the
    /// vault file in full. Loading a returned blob with the same key yields
    /// the record set back; writing the bytes out is the caller's part.
    pub fn save(&self, records: &PasswordStore) -> (r: Result<Vec<u8>, SaveError>)
        requires
            self.crypto.wf(),
        ensures
            r matches Ok(blob) ==> load_spec(self.crypto@, Some(blob@)) == Ok::<_, LoadError>(
                records@,
            ),
            r matches Err(e) ==> e == SaveError::Encryption,
    {
        let mut out: Vec<u8> = Vec::new();
        let n = records.entries.len();
        let mut i: usize = 0;
        while i < n
            invariant
                0 <= i <= n == records.entries@.len(),
                out@ == encode_store(records@.take(i as int)),
                forall|k: int| 0 <= k < i ==> entry_fits(#[trigger] records@[k]),
            decreases n - i,
        {
            let ghost prefix = records@.take(i as int);
            let ghost before = out@;
            let e = &records.entries[i];
            encode_field_bytes(&mut out, e.service.as_str());
            encode_field_bytes(&mut out, e.username.as_str());
            encode_field_bytes(&mut out, e.password.as_str());
            i += 1;
            proof {
                let ev = records@[i - 1];
                assert(out@ =~= before + crate::codec::encode_entry(ev));
                lemma_encode_store_push(prefix, ev);
                assert(records@.take(i as int) =~= prefix.push(ev));
            }
        }
        proof {
            assert(records@.take(n as int) =~= records@);
        }
        match self.crypto.encrypt(out.as_slice()) {
            Ok(blob) => {
                proof {
                    lemma_store_round_trip(records@);
                    vstd::utf8::decode_utf8_encode_utf8(out@);
                }
                Ok(blob)
            },
            Err(_) => Err(SaveError::Encryption),
        }
    }

    /// Produces a secret of exactly `len` characters, each drawn uniformly
    /// at random from the password alphabet. The randomness comes from a
    /// source suitable for secrets; two calls are independent draws.
    pub fn generate_password(&self, len: usize) -> (r: String)
        ensures
            r@.len() == len,
            forall|i: int| 0 <= i < r@.len() ==> in_alphabet(#[trigger] r@[i]),
    {
        let ab = alphabet_bytes();
        let mut out: Vec<u8> = Vec::new();
        let mut i: usize = 0;
        while i < len
            invariant
                out@.len() == i <= len,
                ab@.len() == 88,
                forall|k: int| 0 <= k < ab@.len() ==> in_alphabet_byte(#[trigger] ab@[k]),
                forall|k: int| 0 <= k < out@.len() ==> in_alphabet_byte(#[trigger] out@[k]),
            decreases len - i,
        {
            let idx = random_below(ab.len());
            out.push(ab[idx]);
            i += 1;
        }
        let ghost ob = out@;
        proof {
            assert(forall|k: int| 0 <= k < ob.len() ==> ob[k] < 0x80);
            lemma_ascii_bytes_decode(ob);
        }
        match bytes_to_string(out) {
            Some(s) => s,
            None => {
                proof {
                    assert(false);
                }
                String::new()
            },
        }
    }
}

} // verus!
