//! The words on the command line.

use vstd::prelude::*;

verus! {

/// What the command line asks for.
#[derive(Debug, Clone, Copy, PartialEq, Eq, Structural)]
pub struct Flags {
    /// Build the timetable from the images found, evenly spaced, instead of
    /// reading it from the configuration.
    pub auto_mode: bool,
    /// Report progress.
    pub verbose_mode: bool,
}

/// `word` is one of `args`.
pub open spec fn has_word(args: Seq<String>, word: Seq<char>) -> bool {
    exists|i: int| 0 <= i < args.len() && (#[trigger] args[i])@ == word
}

impl Flags {
    /// Reads the flags off the command line. A flag is set where its word
    /// occurs among `args`, wherever it stands and whatever else is there.
    pub fn from_args(args: &Vec<String>) -> (flags: Flags)
        ensures
            flags.auto_mode == has_word(args@, "auto"@),
            flags.verbose_mode == has_word(args@, "verbose"@),
    {
        let auto_word = String::from_str("auto");
        let verbose_word = String::from_str("verbose");
        let mut auto_mode = false;
        let mut verbose_mode = false;
        let mut i: usize = 0;
        while i < args.len()
            invariant
                i <= args@.len(),
                auto_word@ == "auto"@,
                verbose_word@ == "verbose"@,
                auto_mode == has_word(args@.take(i as int), "auto"@),
                verbose_mode == has_word(args@.take(i as int), "verbose"@),
            decreases args@.len() - i,
        {
            let ghost seen = args@.take(i as int);
            let ghost more = args@.take(i + 1);
            proof {
                reveal_strlit("auto");
                reveal_strlit("verbose");
                assert("auto"@.len() != "verbose"@.len());
                assert(more[i as int] == args@[i as int]);
                assert forall|w: Seq<char>| has_word(more, w) == (has_word(seen, w) || args@[i as int]@
                    == w) by {
                    if has_word(seen, w) {
                        let k = choose|k: int| 0 <= k < seen.len() && (#[trigger] seen[k])@ == w;
                        assert(more[k]@ == w);
                    }
                    if has_word(more, w) {
                        let k = choose|k: int| 0 <= k < more.len() && (#[trigger] more[k])@ == w;
                        if k < i {
                            assert(seen[k]@ == w);
                        }
                    }
                }
            }
            if args[i] == auto_word {
                auto_mode = true;
            } else if args[i] == verbose_word {
                verbose_mode = true;
            }
            i += 1;
        }
        assert(args@.take(args@.len() as int) =~= args@);
        Flags { auto_mode, verbose_mode }
    }
}

} // verus!
