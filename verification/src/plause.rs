//! The container that callers work with: items in, block out, and back.

use vstd::prelude::*;
use vstd::string::StringSliceAdditionalSpecFns;
use rand::rngs::StdRng;
use crate::block::drawn_in_order;
use crate::block::extract_spec;
use crate::block::fails_at;
use crate::block::placed;
use crate::block::Block;
use crate::error::bytes_result;
use crate::error::Error;
use crate::item::Item;
use crate::piece::all_fit;
use crate::piece::password_fits;
use crate::piece::Piece;
use crate::settings::Settings;
use crate::util::same_bytes;

verus! {

/// Settings, the items added so far, and the bytes of the current block.
#[derive(Clone, Debug)]
pub struct Plause {
    pub settings: Settings,
    pub items: Vec<Item>,
    pub content: Vec<u8>,
}

/// Whether some item of `items` has the password `password`.
pub open spec fn has_password(items: Seq<Item>, password: Seq<u8>) -> bool {
    exists|k: int| 0 <= k < items.len() && (#[trigger] items[k]).password@ == password
}

/// Whether no two items of `items` have the same password.
pub open spec fn passwords_distinct(items: Seq<Item>) -> bool {
    forall|i: int, j: int|
        0 <= i < j < items.len() ==> (#[trigger] items[i]).password@ != (#[trigger] items[j]).password@
}

impl Plause {
    /// The derived salts follow the salt, no password is used twice, and
    /// no content is longer than the block.
    pub open spec fn wf(&self) -> bool {
        &&& self.settings.wf()
        &&& passwords_distinct(self.items@)
        &&& forall|k: int|
            0 <= k < self.items@.len() ==> (#[trigger] self.items@[k]).content@.len()
                <= self.settings.blocksize
    }

    /// An empty container for blocks of `blocksize` bytes.
    pub fn new(blocksize: u32, salt: &str) -> (plause: Plause)
        ensures
            plause.settings.blocksize == blocksize,
            plause.settings.salt@ == salt.spec_bytes(),
            plause.items@.len() == 0,
            plause.content@.len() == 0,
            plause.wf(),
    {
        Plause { settings: Settings::new(blocksize, salt), items: Vec::new(), content: Vec::new() }
    }

    /// Takes the bytes of a block that was built elsewhere.
    pub fn import(&mut self, content: Vec<u8>)
        ensures
            final(self).content@ == content@,
            final(self).settings == old(self).settings,
            final(self).items == old(self).items,
            old(self).wf() ==> final(self).wf(),
    {
        self.content = content;
    }

    /// Replaces the salt, and with it the salts of both markers.
    pub fn set_salt(&mut self, salt: Vec<u8>)
        ensures
            final(self).settings.salt@ == salt@,
            final(self).settings.wf(),
            final(self).settings.blocksize == old(self).settings.blocksize,
            final(self).items == old(self).items,
            final(self).content == old(self).content,
            old(self).wf() ==> final(self).wf(),
    {
        self.settings.set_salt(salt);
    }

    /// Finds the message of `password` in the current block and decrypts it.
    pub fn extract(&self, password: &Vec<u8>) -> (r: Result<Vec<u8>, Error>)
        ensures
            bytes_result(r) == extract_spec(self.content@, self.settings, password@),
            password_fits(self.settings, password@) && r is Err ==> r.unwrap_err()
                == Error::MarkerNotFound,
    {
        let fb = Block::import(self.content.clone());
        fb.extract(&self.settings, password)
    }

    /// Adds an item, unless its content is longer than the block or its
    /// password is in use.
    pub fn add(&mut self, password: &Vec<u8>, content: &Vec<u8>) -> (r: Result<(), Error>)
        ensures
            final(self).settings == old(self).settings,
            final(self).content == old(self).content,
            match r {
                Ok(_) => {
                    &&& content@.len() <= old(self).settings.blocksize
                    &&& !has_password(old(self).items@, password@)
                    &&& final(self).items@.len() == old(self).items@.len() + 1
                    &&& final(self).items@.take(old(self).items@.len() as int) == old(self).items@
                    &&& final(self).items@.last().password@ == password@
                    &&& final(self).items@.last().content@ == content@
                },
                Err(e) => {
                    &&& final(self).items == old(self).items
                    &&& if content@.len() > old(self).settings.blocksize {
                        e == Error::ItemTooLarge
                    } else {
                        e == Error::DuplicatePassword && has_password(old(self).items@, password@)
                    }
                },
            },
            old(self).wf() ==> final(self).wf(),
    {
        if content.len() > self.settings.blocksize as usize {
            return Err(Error::ItemTooLarge);
        }
        let mut i: usize = 0;
        while i < self.items.len()
            invariant
                *self == *old(self),
                content@.len() <= self.settings.blocksize,
                i <= self.items@.len(),
                forall|k: int| 0 <= k < i ==> (#[trigger] self.items@[k]).password@ != password@,
            decreases self.items@.len() - i,
        {
            if same_bytes(password, &self.items[i].password) {
                assert(self.items@[i as int].password@ == password@);
                return Err(Error::DuplicatePassword);
            }
            i += 1;
        }
        self.items.push(Item::new(password, content));
        proof {
            assert(self.items@.take(old(self).items@.len() as int) =~= old(self).items@);
            if old(self).wf() {
                assert forall|a: int, b: int| 0 <= a < b < self.items@.len() implies (
                #[trigger] self.items@[a]).password@ != (#[trigger] self.items@[b]).password@ by {
                    assert(self.items@[a] == old(self).items@[a]);
                    if b < old(self).items@.len() {
                        assert(self.items@[b] == old(self).items@[b]);
                    }
                }
                assert forall|k: int| 0 <= k < self.items@.len() implies (
                #[trigger] self.items@[k]).content@.len() <= self.settings.blocksize by {
                    if k < old(self).items@.len() {
                        assert(self.items@[k] == old(self).items@[k]);
                    }
                }
            }
        }
        Ok(())
    }

    /// Builds a fresh block from the items and keeps its bytes.
    pub fn gen(&mut self, rng: &mut StdRng) -> (r: Result<(), Error>)
        ensures
            final(self).settings == old(self).settings,
            final(self).items == old(self).items,
            match r {
                Ok(_) => exists|files: Seq<Piece>| #[trigger]
                    placed(old(self).settings, old(self).items@, files, final(self).content@)
                        && drawn_in_order(old(self).settings.blocksize as int, files),
                Err(e) => {
                    &&& final(self).content == old(self).content
                    &&& exists|before: Seq<Piece>|
                        fails_at(old(self).settings, old(self).items@, before, e)
                },
            },
            old(self).items@.len() == 0 ==> r is Ok,
            all_fit(old(self).settings, old(self).items@) && r is Err ==> r.unwrap_err()
                == Error::PlacementExhausted,
            r is Ok ==> final(self).content@.len() == old(self).settings.blocksize,
            old(self).wf() ==> final(self).wf(),
    {
        match Block::new(&self.settings, &self.items, rng) {
            Ok(block) => {
                let ghost files = block.files@;
                self.content = block.content;
                assert(placed(self.settings, self.items@, files, self.content@) && drawn_in_order(
                    self.settings.blocksize as int,
                    files,
                ));
                Ok(())
            },
            Err(e) => Err(e),
        }
    }

    /// The passwords of the items, in the order in which they were added.
    pub fn get_passwords(&self) -> (result: Vec<Vec<u8>>)
        ensures
            result@.len() == self.items@.len(),
            forall|k: int|
                0 <= k < result@.len() ==> (#[trigger] result@[k])@ == self.items@[k].password@,
    {
        let mut result: Vec<Vec<u8>> = Vec::new();
        let mut i: usize = 0;
        while i < self.items.len()
            invariant
                i <= self.items@.len(),
                result@.len() == i,
                forall|k: int| 0 <= k < i ==> (#[trigger] result@[k])@ == self.items@[k].password@,
            decreases self.items@.len() - i,
        {
            result.push(self.items[i].password.clone());
            i += 1;
        }
        result
    }
}

} // verus!
