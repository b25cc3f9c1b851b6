//! What the command line asks for.
use vstd::prelude::*;
use vstd::utf8::encode_utf8;

use crate::file_path::{path_view, FilePath};
use crate::text::{chars_of, same_text, strings_view};

verus! {

/// What the command line asks for, as far as it is common to all commands.
#[derive(Debug)]
pub struct Args {
    /// The directory to scan. Without one it is the home directory.
    pub root: Option<FilePath>,
}

/// The words of the command line without the one that Cargo puts before them
/// when it runs the program as a subcommand.
pub open spec fn own_words(argv: Seq<Seq<char>>) -> Seq<Seq<char>> {
    if argv.len() > 1 && argv[1] == "shepherd"@ {
        argv.remove(1)
    } else {
        argv
    }
}

/// The directory to scan: the first one that is given, else the home
/// directory, else the current one.
pub open spec fn scan_root(
    own: Option<Seq<u8>>,
    outer: Option<Seq<u8>>,
    home: Option<Seq<u8>>,
) -> Seq<u8> {
    match (own, outer, home) {
        (Some(p), _, _) => p,
        (None, Some(p), _) => p,
        (None, None, Some(p)) => p,
        (None, None, None) => encode_utf8("."@),
    }
}

impl Args {
    /// Drops the word that Cargo puts before the others.
    pub fn parse_args(argv: Vec<String>) -> (r: Vec<String>)
        ensures
            strings_view(r@) == own_words(strings_view(argv@)),
    {
        let ghost words = strings_view(argv@);
        let mut r = argv;
        if r.len() > 1 {
            assert(words[1] == r@[1]@);
            let word = chars_of(r[1].as_str());
            if same_text(word.as_slice(), "shepherd") {
                r.remove(1);
                assert(strings_view(r@) =~= words.remove(1));
            }
        }
        r
    }

    /// The directory to scan, given that of a command and that of the program.
    pub fn root_for(
        own: Option<FilePath>,
        outer: Option<FilePath>,
        home: Option<FilePath>,
    ) -> (r: FilePath)
        ensures
            r@ == scan_root(path_view(own), path_view(outer), path_view(home)),
    {
        match own {
            Some(p) => p,
            None => match outer {
                Some(p) => p,
                None => match home {
                    Some(p) => p,
                    None => FilePath::new("."),
                },
            },
        }
    }

    /// The directory to scan.
    pub fn root(&self, home: Option<FilePath>) -> (r: FilePath)
        ensures
            r@ == scan_root(path_view(self.root), None, path_view(home)),
    {
        match &self.root {
            Some(p) => p.clone(),
            None => Args::root_for(None, None, home),
        }
    }
}

/// Law: the word `shepherd` right behind the program's name is dropped, once, and
/// nothing else is.
pub proof fn law_own_words(program: Seq<char>, word: Seq<char>, rest: Seq<Seq<char>>)
    ensures
        own_words(seq![program, seq!['s', 'h', 'e', 'p', 'h', 'e', 'r', 'd']] + rest)
            == seq![program] + rest,
        word != seq!['s', 'h', 'e', 'p', 'h', 'e', 'r', 'd'] ==> own_words(
            seq![program, word] + rest,
        ) == seq![program, word] + rest,
        own_words(seq![program]) == seq![program],
        own_words(Seq::empty()) == Seq::<Seq<char>>::empty(),
{
    reveal_strlit("shepherd");
    let name = seq!['s', 'h', 'e', 'p', 'h', 'e', 'r', 'd'];
    assert("shepherd"@ =~= name);
    let argv = seq![program, name] + rest;
    assert(argv[1] == name);
    assert(argv.remove(1) =~= seq![program] + rest);
    assert((seq![program, word] + rest)[1] == word);
}

/// Law: the directory that the command names is scanned, else the one that the
/// program names, else the home directory, else the current one.
pub proof fn law_scan_root(
    dir: Seq<u8>,
    outer: Option<Seq<u8>>,
    home: Option<Seq<u8>>,
)
    ensures
        scan_root(Some(dir), outer, home) == dir,
        scan_root(None, Some(dir), home) == dir,
        scan_root(None, None, Some(dir)) == dir,
        scan_root(None, None, None) == seq![0x2eu8],
{
    reveal_strlit(".");
    crate::file_path::law_ascii_bytes("."@);
    assert(encode_utf8("."@) =~= seq![0x2eu8]);
}

} // verus!
