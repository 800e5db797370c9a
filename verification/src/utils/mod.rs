//! Small value types shared by every layer: colors, pieces, files, ranks,
//! squares and compass directions.

pub mod color;
pub mod direction;
pub mod file;
pub mod piece;
pub mod rank;
pub mod square;

use vstd::prelude::*;
use vstd::string::StringExecFns;

verus! {

/// What the program is asked to do.
#[derive(PartialEq, Eq, Debug, Clone, Copy)]
pub enum Flag {
    Ai,
    Help,
    Perft,
    Invalid,
}

/// What the arguments of the program ask for, and the text that goes with
/// it.
pub struct Args {
    pub flag: Flag,
    pub file_path: String,
}

/// What the arguments of the program ask for, the name of the program
/// first: to play if there is no argument, help for `-h`, a leaf count of
/// the position in the file named next for `--perft`, and for any other
/// argument nothing, that argument being handed back.
pub open spec fn parsed_flag(args: Seq<Seq<char>>) -> Flag {
    if args.len() < 2 {
        Flag::Ai
    } else if args[1] == "-h"@ {
        Flag::Help
    } else if args[1] == "--perft"@ {
        Flag::Perft
    } else {
        Flag::Invalid
    }
}

/// The text that goes with the flag: the file for a leaf count, the
/// argument that was not understood, and else nothing.
pub open spec fn parsed_path(args: Seq<Seq<char>>) -> Seq<char> {
    match parsed_flag(args) {
        Flag::Ai => Seq::empty(),
        Flag::Help => Seq::empty(),
        Flag::Perft => args[2],
        Flag::Invalid => args[1],
    }
}

impl Args {
    fn new(flag: Flag, file_path: String) -> (args: Args)
        ensures
            args.flag == flag,
            args.file_path == file_path,
    {
        Args { flag, file_path }
    }

    /// What is asked for.
    pub fn get_flag(&self) -> (flag: &Flag)
        ensures
            *flag == self.flag,
    {
        &self.flag
    }

    /// The text that goes with it.
    pub fn get_file_path(&self) -> (path: &String)
        ensures
            *path == self.file_path,
    {
        &self.file_path
    }
}

/// What the arguments of the program ask for.
pub fn parse_args(args: Vec<String>) -> (parsed: Args)
    requires
        args@.len() >= 2 && args@[1]@ == "--perft"@ ==> args@.len() >= 3,
    ensures
        parsed.flag == parsed_flag(args@.map_values(|a: String| a@)),
        parsed.file_path@ == parsed_path(args@.map_values(|a: String| a@)),
{
    let ghost texts = args@.map_values(|a: String| a@);
    if args.len() < 2 {
        let none = String::from_str("");
        proof {
            reveal_strlit("");
            assert(none@ =~= Seq::<char>::empty());
        }
        return Args::new(Flag::Ai, none);
    }
    assert(texts[1] == args@[1]@);
    let help = String::from_str("-h");
    let perft = String::from_str("--perft");
    if args[1] == help {
        let none = String::from_str("");
        proof {
            reveal_strlit("");
            assert(none@ =~= Seq::<char>::empty());
        }
        Args::new(Flag::Help, none)
    } else if args[1] == perft {
        assert(texts[2] == args@[2]@);
        Args::new(Flag::Perft, args[2].clone())
    } else {
        Args::new(Flag::Invalid, args[1].clone())
    }
}

} // verus!
