//! What the command line asks for: the file, the question, and how choices
//! are scored.

use vstd::prelude::*;
use vstd::hash_map::StringHashMap;
use vstd::string::StringExecFns;
use crate::text::{number_of, parse_number, same_text};

verus! {

/// The pieces of `s` between the occurrences of `sep`.
pub open spec fn pieces_of(s: Seq<char>, sep: char) -> Seq<Seq<char>>
    decreases s.len(),
{
    if s.len() == 0 {
        seq![Seq::<char>::empty()]
    } else {
        let before = pieces_of(s.drop_last(), sep);
        if s.last() == sep {
            before.push(Seq::empty())
        } else {
            before.update(before.len() - 1, before.last().push(s.last()))
        }
    }
}

/// The scores that `pieces`, taken two by two as a choice and its number,
/// add to `scores`; a later pair replaces an earlier one for the same choice.
pub open spec fn pairs_of(scores: Map<Seq<char>, i32>, pieces: Seq<Seq<char>>) -> Result<
    Map<Seq<char>, i32>,
    Seq<char>,
>
    decreases pieces.len(),
{
    if pieces.len() == 0 {
        Ok(scores)
    } else if pieces.len() == 1 {
        Err(pieces[0] + " has no matching value"@)
    } else {
        match number_of(pieces[1]) {
            Ok(n) => pairs_of(scores.insert(pieces[0], n), pieces.skip(2)),
            Err(e) => Err(e),
        }
    }
}

/// The scores that a mapping text stands for. Its first character is the
/// splitter; the rest, split at it, is a choice, its number, a choice, its
/// number, and so on.
pub open spec fn mappings_of(mapping: Seq<char>) -> Result<Map<Seq<char>, i32>, Seq<char>> {
    if mapping.len() == 0 {
        Err("no splitter"@)
    } else {
        pairs_of(Map::empty(), pieces_of(mapping.drop_first(), mapping[0]))
    }
}

/// Splits a mapping text at its splitter. `None` if the text is empty and so
/// names no splitter.
pub fn split_mapping(mapping: &str) -> (out: Option<Vec<String>>)
    ensures
        match out {
            Some(pieces) => mapping@.len() > 0 && pieces.deep_view() == pieces_of(
                mapping@.drop_first(),
                mapping@[0],
            ),
            None => mapping@.len() == 0,
        },
{
    let mut splitter: Option<char> = None;
    let mut out: Vec<String> = Vec::new();
    let mut current = String::new();
    for c in it: mapping.chars()
        invariant
            it.seq() == mapping@,
            it.index() == 0 ==> splitter is None && out@.len() == 0 && current@.len() == 0,
            it.index() > 0 ==> splitter == Some(mapping@[0]) && out.deep_view().push(current@)
                == pieces_of(mapping@.take(it.index()).drop_first(), mapping@[0]),
    {
        let ghost i = it.index();
        proof {
            assert(mapping@.take(i + 1).drop_first().len() == i);
            if i > 0 {
                assert(mapping@.take(i + 1).drop_first().drop_last() =~= mapping@.take(
                    i,
                ).drop_first());
            }
        }
        match splitter {
            None => {
                splitter = Some(c);
                assert(current@ =~= Seq::empty());
                assert(mapping@.take(i + 1).drop_first() =~= Seq::empty());
                assert(out.deep_view().push(current@) =~= pieces_of(
                    mapping@.take(i + 1).drop_first(),
                    c,
                ));
            },
            Some(sep) => {
                if c == sep {
                    let ghost before = out.deep_view();
                    out.push(current);
                    assert(out.deep_view() =~= before.push(current@));
                    current = String::new();
                } else {
                    current.push(c);
                }
                assert(out.deep_view().push(current@) =~= pieces_of(
                    mapping@.take(i + 1).drop_first(),
                    sep,
                ));
            },
        }
    }
    proof {
        assert(mapping@.take(mapping@.len() as int) == mapping@);
    }
    match splitter {
        None => None,
        Some(_) => {
            let ghost before = out.deep_view();
            out.push(current);
            assert(out.deep_view() =~= before.push(current@));
            Some(out)
        },
    }
}

/// The text of a result whose error is a message.
pub open spec fn scores_text(res: Result<StringHashMap<i32>, String>) -> Result<
    Map<Seq<char>, i32>,
    Seq<char>,
> {
    match res {
        Ok(scores) => Ok(scores@),
        Err(e) => Err(e@),
    }
}

/// What the command line asks for.
pub struct Config {
    pub filepath: String,
    pub search: String,
    pub rank: bool,
    pub unique: bool,
    pub exact: bool,
    pub mappings: StringHashMap<i32>,
}

/// A configuration as plain values.
pub struct ConfigView {
    pub filepath: Seq<char>,
    pub search: Seq<char>,
    pub rank: bool,
    pub unique: bool,
    pub exact: bool,
    pub mappings: Map<Seq<char>, i32>,
}

impl View for Config {
    type V = ConfigView;

    open spec fn view(&self) -> ConfigView {
        ConfigView {
            filepath: self.filepath@,
            search: self.search@,
            rank: self.rank,
            unique: self.unique,
            exact: self.exact,
            mappings: self.mappings@,
        }
    }
}

/// What has been read of a command line so far.
pub struct Draft {
    pub filepath: Option<Seq<char>>,
    pub search: Seq<char>,
    pub rank: bool,
    pub unique: bool,
    pub exact: bool,
    pub mappings: Map<Seq<char>, i32>,
}

impl Draft {
    /// Nothing read yet.
    pub open spec fn blank() -> Draft {
        Draft {
            filepath: None,
            search: Seq::empty(),
            rank: false,
            unique: false,
            exact: false,
            mappings: Map::empty(),
        }
    }
}

/// What the arguments from `at` on add to `draft`. The last argument is the
/// file's path, whatever it says. Before it, `-s` and `-m` take the argument
/// that follows them, the other options stand alone, and anything else is
/// passed over.
pub open spec fn read_args(args: Seq<Seq<char>>, at: int, draft: Draft) -> Result<Draft, Seq<char>>
    decreases args.len() - at,
{
    if at >= args.len() {
        Ok(draft)
    } else if at == args.len() - 1 {
        Ok(Draft { filepath: Some(args[at]), ..draft })
    } else if args[at] == "-s"@ {
        read_args(args, at + 2, Draft { search: args[at + 1], ..draft })
    } else if args[at] == "-m"@ {
        match mappings_of(args[at + 1]) {
            Ok(scores) => read_args(args, at + 2, Draft { mappings: scores, ..draft }),
            Err(e) => Err(e),
        }
    } else if args[at] == "-r"@ || args[at] == "--rank"@ {
        read_args(args, at + 1, Draft { rank: true, ..draft })
    } else if args[at] == "-u"@ || args[at] == "--unique"@ {
        read_args(args, at + 1, Draft { unique: true, ..draft })
    } else if args[at] == "-e"@ || args[at] == "--exact"@ {
        read_args(args, at + 1, Draft { exact: true, ..draft })
    } else {
        read_args(args, at + 1, draft)
    }
}

/// The configuration that a command line stands for, or what is wrong with
/// it: a broken mapping, no path, or no question where one is needed.
pub open spec fn config_of(args: Seq<Seq<char>>) -> Result<ConfigView, Seq<char>> {
    match read_args(args, 0, Draft::blank()) {
        Ok(draft) => match draft.filepath {
            Some(filepath) => if !draft.rank && draft.search.len() == 0 {
                Err("no search string specified"@)
            } else {
                Ok(
                    ConfigView {
                        filepath,
                        search: draft.search,
                        rank: draft.rank,
                        unique: draft.unique,
                        exact: draft.exact,
                        mappings: draft.mappings,
                    },
                )
            },
            None => Err("no filepath specified"@),
        },
        Err(e) => Err(e),
    }
}

/// The text of a configuration that may be an error.
pub open spec fn config_text(res: Result<Config, String>) -> Result<ConfigView, Seq<char>> {
    match res {
        Ok(config) => Ok(config@),
        Err(e) => Err(e@),
    }
}

impl Config {
    /// Reads the command line, the program's own name left out.
    pub fn build(args: Vec<String>) -> (res: Result<Config, String>)
        ensures
            config_text(res) == config_of(args.deep_view()),
    {
        let mut filepath: Option<String> = None;
        let mut search = String::new();
        let mut rank = false;
        let mut unique = false;
        let mut exact = false;
        let mut mappings: StringHashMap<i32> = StringHashMap::new();
        let ghost all = args.deep_view();
        let mut at: usize = 0;
        while at < args.len()
            invariant
                at <= args.len(),
                all == args.deep_view(),
                read_args(all, 0, Draft::blank()) == read_args(
                    all,
                    at as int,
                    Draft {
                        filepath: match filepath {
                            Some(path) => Some(path@),
                            None => None,
                        },
                        search: search@,
                        rank,
                        unique,
                        exact,
                        mappings: mappings@,
                    },
                ),
            decreases args.len() - at,
        {
            assert(all[at as int] == args[at as int]@);
            let arg = args[at].as_str();
            if at + 1 == args.len() {
                filepath = Some(args[at].clone());
                at += 1;
            } else {
                assert(all[at + 1] == args[at + 1]@);
                if same_text(arg, "-s") {
                    search = args[at + 1].clone();
                    at += 2;
                } else if same_text(arg, "-m") {
                    match Self::parse_mappings(args[at + 1].as_str()) {
                        Ok(scores) => {
                            mappings = scores;
                        },
                        Err(e) => {
                            return Err(e);
                        },
                    }
                    at += 2;
                } else if same_text(arg, "-r") || same_text(arg, "--rank") {
                    rank = true;
                    at += 1;
                } else if same_text(arg, "-u") || same_text(arg, "--unique") {
                    unique = true;
                    at += 1;
                } else if same_text(arg, "-e") || same_text(arg, "--exact") {
                    exact = true;
                    at += 1;
                } else {
                    at += 1;
                }
            }
        }
        let filepath = match filepath {
            Some(path) => path,
            None => {
                return Err("no filepath specified".to_owned());
            },
        };
        if !rank && search.as_str().is_empty() {
            return Err("no search string specified".to_owned());
        }
        Ok(Config { filepath, search, rank, unique, exact, mappings })
    }

    /// Scores `key` with `number` where the number was read, and hands the
    /// error on where it was not.
    pub fn map_choice(scores: &mut StringHashMap<i32>, key: &str, number: Result<i32, String>) -> (res:
        Result<(), String>)
        ensures
            match number {
                Ok(n) => res is Ok && final(scores)@ == old(scores)@.insert(key@, n),
                Err(e) => res == Err::<(), String>(e) && final(scores)@ == old(scores)@,
            },
    {
        match number {
            Ok(n) => {
                scores.insert(key.to_owned(), n);
                Ok(())
            },
            Err(e) => Err(e),
        }
    }

    /// Reads a mapping text: its first character is the splitter, and the
    /// rest is, split at it, a choice, its number, a choice, its number.
    pub fn parse_mappings(mapping: &str) -> (res: Result<StringHashMap<i32>, String>)
        ensures
            scores_text(res) == mappings_of(mapping@),
    {
        let pieces = match split_mapping(mapping) {
            Some(pieces) => pieces,
            None => {
                return Err("no splitter".to_owned());
            },
        };
        let mut scores: StringHashMap<i32> = StringHashMap::new();
        let mut i: usize = 0;
        assert(pieces.deep_view().skip(0) =~= pieces.deep_view());
        while i < pieces.len()
            invariant
                i <= pieces.len(),
                mapping@.len() > 0,
                mappings_of(mapping@) == pairs_of(scores@, pieces.deep_view().skip(i as int)),
            decreases pieces.len() - i,
        {
            let ghost rest = pieces.deep_view().skip(i as int);
            assert(rest[0] == pieces[i as int]@);
            if i + 1 >= pieces.len() {
                let message = pieces[i].clone().concat(" has no matching value");
                assert(rest.len() == 1);
                return Err(message);
            }
            assert(rest[1] == pieces[i + 1]@);
            assert(rest.skip(2) =~= pieces.deep_view().skip(i + 2));
            let number = parse_number(pieces[i + 1].as_str());
            match Self::map_choice(&mut scores, pieces[i].as_str(), number) {
                Ok(_) => {},
                Err(e) => {
                    return Err(e);
                },
            }
            i += 2;
        }
        Ok(scores)
    }
}

} // verus!
