//! A compile command that carries its command string and is brought into
//! canonical form in place.
use vstd::prelude::*;
use crate::canon::{canonical_parts, canonicalize};
use crate::text::{split_char, split_on, views};
use crate::utils::{flags_hash, vector_hash};

verus! {

#[derive(Debug, Clone, PartialEq)]
pub struct CompileCommand {
    pub directory: String,
    pub command: String,
    pub file: String,
    pub flags: Vec<String>,
    pub compiler: String,
    pub output: String,
}

impl Default for CompileCommand {
    fn default() -> (r: Self)
        ensures
            r.directory@.len() == 0,
            r.command@.len() == 0,
            r.file@.len() == 0,
            r.flags@.len() == 0,
            r.compiler@.len() == 0,
            r.output@.len() == 0,
    {
        CompileCommand {
            directory: String::new(),
            command: String::new(),
            file: String::new(),
            flags: Vec::new(),
            compiler: String::new(),
            output: String::new(),
        }
    }
}

impl CompileCommand {
    /// Whether the command string names a value after its output marker and
    /// after its compile-only marker.
    pub open spec fn can_init(&self) -> bool {
        canonicalize(split_on(self.command@, ' '), self.file@) is Ok
    }

    /// Fills the compiler, the canonical flags and the output from the
    /// command string, split at every single space.
    pub fn init(&mut self)
        requires
            old(self).can_init(),
        ensures
            ({
                let (c, f, o) = canonicalize(split_on(old(self).command@, ' '), old(self).file@)->Ok_0;
                &&& final(self).compiler@ == c
                &&& views(final(self).flags@) == f
                &&& final(self).output@ == o
            }),
            final(self).directory == old(self).directory,
            final(self).command == old(self).command,
            final(self).file == old(self).file,
    {
        let tokens = split_char(self.command.as_str(), ' ');
        match canonical_parts(tokens, &self.file) {
            Ok((compiler, flags, output)) => {
                self.compiler = compiler;
                self.flags = flags;
                self.output = output;
            },
            Err(_) => {},
        }
    }

    /// The hash of the canonical flags.
    pub fn hash(&self) -> (r: String)
        ensures
            r@ == flags_hash(views(self.flags@)),
    {
        vector_hash(self.flags.as_slice())
    }
}

} // verus!
