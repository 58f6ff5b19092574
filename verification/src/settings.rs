//! Block size and salt material.

use vstd::prelude::*;
use vstd::string::StringSliceAdditionalSpecFns;
use vstd::string::StrSliceExecFns;

verus! {

/// Constant that precedes the salt in the salt of the prefix marker.
pub const DEFAULT_PREFIX_SALT: &'static str = "@7@llc05754261933$uFf3r";

/// Constant that precedes the salt in the salt of the postfix marker.
pub const DEFAULT_POSTFIX_SALT: &'static str = "11419523LIMin@73pRiv@cY";

/// The bytes of `DEFAULT_PREFIX_SALT`.
pub open spec fn prefix_constant() -> Seq<u8> {
    DEFAULT_PREFIX_SALT.spec_bytes()
}

/// The bytes of `DEFAULT_POSTFIX_SALT`.
pub open spec fn postfix_constant() -> Seq<u8> {
    DEFAULT_POSTFIX_SALT.spec_bytes()
}

/// Configuration of one block: its size and the salts that the key stream
/// and the two markers are derived with.
#[derive(Clone, Debug)]
pub struct Settings {
    pub blocksize: u32,
    pub salt: Vec<u8>,
    pub salt_prefix: Vec<u8>,
    pub salt_postfix: Vec<u8>,
}

impl Settings {
    /// The two derived salts are the two constants, each followed by the salt.
    pub open spec fn wf(&self) -> bool {
        &&& self.salt_prefix@ == prefix_constant() + self.salt@
        &&& self.salt_postfix@ == postfix_constant() + self.salt@
    }

    /// Settings for blocks of `blocksize` bytes, salted with the bytes of `salt`.
    pub fn new(blocksize: u32, salt: &str) -> (s: Settings)
        ensures
            s.blocksize == blocksize,
            s.salt@ == salt.spec_bytes(),
            s.wf(),
    {
        let mut s = Settings {
            blocksize,
            salt: Vec::new(),
            salt_prefix: Vec::new(),
            salt_postfix: Vec::new(),
        };
        s.set_salt(salt.as_bytes_vec());
        s
    }

    /// Replaces the salt, and with it both derived salts.
    pub fn set_salt(&mut self, salt: Vec<u8>)
        ensures
            final(self).blocksize == old(self).blocksize,
            final(self).salt@ == salt@,
            final(self).wf(),
    {
        let mut prefix = DEFAULT_PREFIX_SALT.as_bytes_vec();
        let mut postfix = DEFAULT_POSTFIX_SALT.as_bytes_vec();
        let mut i: usize = 0;
        while i < salt.len()
            invariant
                i <= salt@.len(),
                prefix@ == prefix_constant() + salt@.take(i as int),
                postfix@ == postfix_constant() + salt@.take(i as int),
            decreases salt@.len() - i,
        {
            prefix.push(salt[i]);
            postfix.push(salt[i]);
            assert(salt@.take(i + 1) =~= salt@.take(i as int).push(salt@[i as int]));
            i += 1;
        }
        assert(salt@.take(salt@.len() as int) =~= salt@);
        self.salt = salt;
        self.salt_prefix = prefix;
        self.salt_postfix = postfix;
    }
}

/// The salts of the two markers are never equal: their constants differ
/// in the first byte.
pub proof fn lemma_derived_salts_differ(s: Settings)
    requires
        s.wf(),
    ensures
        s.salt_prefix@ != s.salt_postfix@,
{
    reveal_strlit("@7@llc05754261933$uFf3r");
    reveal_strlit("11419523LIMin@73pRiv@cY");
    vstd::string::is_ascii_spec_bytes(DEFAULT_PREFIX_SALT);
    vstd::string::is_ascii_spec_bytes(DEFAULT_POSTFIX_SALT);
    assert(s.salt_prefix@[0] == prefix_constant()[0]);
    assert(s.salt_postfix@[0] == postfix_constant()[0]);
}

} // verus!
