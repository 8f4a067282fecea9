//! The command line.

use vstd::prelude::*;
use vstd::string::*;
use crate::text;

verus! {

/// The stream that is played when the command line names none.
pub const RINSE_URL: &'static str = "https://admin.stream.rinse.fm/proxy/rinse_uk/stream";

/// What the command line asks for.
pub struct Args {
    /// The address of the stream.
    pub url: String,
    /// The most bars to show; fewer are shown where the screen has no room for them.
    pub bars: usize,
    pub no_audio: bool,
}

/// What the command line asks for, with the address as its characters.
pub struct Options {
    pub url: Seq<char>,
    pub bars: usize,
    pub no_audio: bool,
}

impl View for Args {
    type V = Options;

    open spec fn view(&self) -> Options {
        Options { url: self.url@, bars: self.bars, no_audio: self.no_audio }
    }
}

/// What an empty command line asks for.
pub open spec fn defaults() -> Options {
    Options { url: RINSE_URL@, bars: 128, no_audio: false }
}

/// The options after the arguments, read from left to right, when they were `so_far` before;
/// nothing for arguments that are not understood.
pub open spec fn read_options(args: Seq<Seq<char>>, so_far: Options) -> Option<Options>
    decreases args.len(),
{
    if args.len() == 0 {
        Some(so_far)
    } else if args[0] == "--url"@ {
        if args.len() >= 2 {
            read_options(args.skip(2), Options { url: args[1], ..so_far })
        } else {
            None
        }
    } else if args[0] == "--bars"@ {
        if args.len() >= 2 {
            match text::unsigned(args[1], usize::MAX as int) {
                Some(n) => read_options(args.skip(2), Options { bars: n as usize, ..so_far }),
                None => None,
            }
        } else {
            None
        }
    } else if args[0] == "--no-audio"@ {
        read_options(args.skip(1), Options { no_audio: true, ..so_far })
    } else {
        None
    }
}

/// The characters of each argument.
pub open spec fn texts(args: Seq<String>) -> Seq<Seq<char>> {
    Seq::new(args.len(), |i: int| args[i]@)
}

/// Reads the arguments after the program's name; nothing when the usage is to be shown.
pub fn parse_args(args: &Vec<String>) -> (r: Option<Args>)
    ensures
        match r {
            Some(a) => read_options(texts(args@), defaults()) == Some(a@),
            None => read_options(texts(args@), defaults()) is None,
        },
{
    let mut out: Args = Args { url: RINSE_URL.to_owned(), bars: 128, no_audio: false };
    let ghost all = texts(args@);
    let mut i: usize = 0;
    assert(all.skip(0) =~= all);
    while i < args.len()
        invariant
            i <= args@.len(),
            all == texts(args@),
            read_options(all, defaults()) == read_options(all.skip(i as int), out@),
        decreases args@.len() - i,
    {
        let ghost rest = all.skip(i as int);
        proof {
            reveal_strlit("--url");
            reveal_strlit("--bars");
            reveal_strlit("--no-audio");
            assert("--url"@.len() != "--bars"@.len());
            assert(rest[0] == args@[i as int]@);
            assert(i + 1 < all.len() ==> rest[1] == args@[i + 1]@);
            assert(i + 1 < all.len() ==> rest.skip(2) =~= all.skip(i + 2));
            assert(rest.skip(1) =~= all.skip(i + 1));
        }
        let a: &str = args[i].as_str();
        if text::same_text(a, "--url") {
            if i + 1 >= args.len() {
                return None;
            }
            out.url = args[i + 1].clone();
            i = i + 2;
        } else if text::same_text(a, "--bars") {
            if i + 1 >= args.len() {
                return None;
            }
            let chars: Vec<char> = text::chars_of(args[i + 1].as_str());
            assert(chars@.subrange(0, chars@.len() as int) =~= chars@);
            match text::read_unsigned(&chars, 0, chars.len(), usize::MAX as u64) {
                Some(n) => {
                    out.bars = n as usize;
                },
                None => return None,
            }
            i = i + 2;
        } else if text::same_text(a, "--no-audio") {
            out.no_audio = true;
            i = i + 1;
        } else {
            return None;
        }
    }
    Some(out)
}

/// The arguments are read from left to right: those that come after others start from what
/// the others gave, so the last one of a kind counts.
pub proof fn law_later_arguments_count(
    first: Seq<Seq<char>>,
    more: Seq<Seq<char>>,
    so_far: Options,
)
    requires
        read_options(first, so_far) is Some,
    ensures
        read_options(first + more, so_far) == read_options(
            more,
            read_options(first, so_far).unwrap(),
        ),
    decreases first.len(),
{
    let all = first + more;
    if first.len() == 0 {
        assert(all =~= more);
    } else {
        reveal_strlit("--url");
        reveal_strlit("--bars");
        reveal_strlit("--no-audio");
        assert(all[0] == first[0]);
        if first[0] == "--url"@ {
            assert(all.skip(2) =~= first.skip(2) + more);
            law_later_arguments_count(first.skip(2), more, Options { url: first[1], ..so_far });
        } else if first[0] == "--bars"@ {
            assert(all.skip(2) =~= first.skip(2) + more);
            let n = text::unsigned(first[1], usize::MAX as int).unwrap();
            law_later_arguments_count(
                first.skip(2),
                more,
                Options { bars: n as usize, ..so_far },
            );
        } else {
            assert(all.skip(1) =~= first.skip(1) + more);
            law_later_arguments_count(first.skip(1), more, Options { no_audio: true, ..so_far });
        }
    }
}

/// The keys that end the program: `q`, `Q`, and `c` with the control key.
pub fn is_quit(key: Option<char>, control: bool) -> (b: bool)
    ensures
        b == (key == Some('q') || key == Some('Q') || (key == Some('c') && control)),
{
    match key {
        Some(c) => c == 'q' || c == 'Q' || (c == 'c' && control),
        None => false,
    }
}

/// An empty command line asks for the station's own stream, at most 128 bars, and audio.
pub proof fn law_no_arguments_mean_the_defaults(args: &Vec<String>, r: Option<Args>)
    requires
        call_ensures(parse_args, (args,), r),
        args@.len() == 0,
    ensures
        r matches Some(a) && a.url@ == "https://admin.stream.rinse.fm/proxy/rinse_uk/stream"@
            && a.bars == 128 && !a.no_audio,
{
    assert(texts(args@) =~= Seq::<Seq<char>>::empty());
}

/// Each argument sets one thing, and what comes after it is read in the same way: `--url` the
/// address, `--bars` the most bars, `--no-audio` that there is no audio. An argument that is
/// none of these, a missing value and a value that is no number for `--bars` are not understood,
/// whatever comes after them.
pub proof fn law_each_argument_sets_one_thing(
    first: Seq<char>,
    value: Seq<char>,
    more: Seq<Seq<char>>,
    url: Seq<char>,
    bars: usize,
    no_audio: bool,
)
    ensures
        ({
            let so_far = Options { url, bars, no_audio };
            &&& read_options(Seq::empty(), so_far) == Some(so_far)
            &&& read_options(seq!["--url"@, value] + more, so_far) == read_options(
                more,
                Options { url: value, bars, no_audio },
            )
            &&& read_options(seq!["--no-audio"@] + more, so_far) == read_options(
                more,
                Options { url, bars, no_audio: true },
            )
            &&& match text::unsigned(value, usize::MAX as int) {
                Some(n) => read_options(seq!["--bars"@, value] + more, so_far) == read_options(
                    more,
                    Options { url, bars: n as usize, no_audio },
                ),
                None => read_options(seq!["--bars"@, value] + more, so_far) is None,
            }
            &&& read_options(seq!["--url"@], so_far) is None
            &&& read_options(seq!["--bars"@], so_far) is None
            &&& first != "--url"@ && first != "--bars"@ && first != "--no-audio"@
                ==> read_options(seq![first] + more, so_far) is None
        }),
{
    reveal_strlit("--url");
    reveal_strlit("--bars");
    reveal_strlit("--no-audio");
    assert("--url"@.len() == 5 && "--bars"@.len() == 6 && "--no-audio"@.len() == 10);
    assert((seq!["--url"@, value] + more).skip(2) =~= more);
    assert((seq!["--bars"@, value] + more).skip(2) =~= more);
    assert((seq!["--no-audio"@] + more).skip(1) =~= more);
    assert((seq![first] + more)[0] == first);
}

/// The command line is read from the defaults on, argument by argument as it stands.
pub proof fn law_arguments_start_from_the_defaults(args: &Vec<String>, r: Option<Args>)
    requires
        call_ensures(parse_args, (args,), r),
    ensures
        ({
            let said = args@.map_values(|a: String| a@);
            let none = Options {
                url: "https://admin.stream.rinse.fm/proxy/rinse_uk/stream"@,
                bars: 128,
                no_audio: false,
            };
            match r {
                Some(a) => read_options(said, none) == Some(
                    Options { url: a.url@, bars: a.bars, no_audio: a.no_audio },
                ),
                None => read_options(said, none) is None,
            }
        }),
{
    assert(texts(args@) =~= args@.map_values(|a: String| a@));
}

/// Three keys end the program, and no other.
pub proof fn law_three_keys_end_the_program(key: char, control: bool, b: bool, none: bool)
    requires
        call_ensures(is_quit, (Some(key), control), b),
        call_ensures(is_quit, (None, control), none),
    ensures
        key == 'q' || key == 'Q' ==> b,
        key == 'c' ==> b == control,
        key != 'q' && key != 'Q' && key != 'c' ==> !b,
        !none,
{
}

} // verus!
