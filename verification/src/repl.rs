//! The interactive prompt: what a typed line asks for, and the book list's
//! title filter.

use vstd::prelude::*;
use crate::brain::{opt_view, Book, BookView};
use crate::observer::{command_argument, command_word, split_command};
use crate::text::{
    contains, lowercase, parse_usize, parse_usize_str, starts_with_char, str_contains, str_eq,
    to_lowercase, trim, trim_str,
};

verus! {

/// The depth `/related` uses when none (or no number) is given.
pub const DEFAULT_RELATED_DEPTH: usize = 2;

/// A line typed at the prompt.
#[derive(Debug, Clone, PartialEq, Eq)]
pub enum ReplCommand {
    /// A blank line.
    Empty,
    /// `exit`, `quit`, `/exit` or `/quit`.
    Exit,
    /// Any line not starting with `/`: a question.
    Question(String),
    /// `/help` or `/h`.
    Help,
    /// `/stats`.
    Stats,
    /// `/brain`.
    Brain,
    /// `/clear`.
    Clear,
    /// `/concept` or `/c`, with its argument (`None`: show the usage).
    Concept(Option<String>),
    /// `/related` or `/r`, with the concept and depth (`None`: show the usage).
    Related(Option<(String, usize)>),
    /// `/learn`, with its argument (`None`: show the usage).
    Learn(Option<String>),
    /// `/learn-text` or `/lt`, with its argument (`None`: show the usage).
    LearnText(Option<String>),
    /// `/init`, with its argument (`None`: show the usage).
    Init(Option<String>),
    /// `/books`, with the title filter if one is given.
    Books(Option<String>),
    /// `/book-info` or `/book`, with its argument (`None`: show the usage).
    BookInfo(Option<String>),
    /// Any other command, lowercased.
    Unknown(String),
}

pub enum ReplCommandView {
    Empty,
    Exit,
    Question(Seq<char>),
    Help,
    Stats,
    Brain,
    Clear,
    Concept(Option<Seq<char>>),
    Related(Option<(Seq<char>, usize)>),
    Learn(Option<Seq<char>>),
    LearnText(Option<Seq<char>>),
    Init(Option<Seq<char>>),
    Books(Option<Seq<char>>),
    BookInfo(Option<Seq<char>>),
    Unknown(Seq<char>),
}

impl View for ReplCommand {
    type V = ReplCommandView;

    open spec fn view(&self) -> ReplCommandView {
        match self {
            ReplCommand::Empty => ReplCommandView::Empty,
            ReplCommand::Exit => ReplCommandView::Exit,
            ReplCommand::Question(q) => ReplCommandView::Question(q@),
            ReplCommand::Help => ReplCommandView::Help,
            ReplCommand::Stats => ReplCommandView::Stats,
            ReplCommand::Brain => ReplCommandView::Brain,
            ReplCommand::Clear => ReplCommandView::Clear,
            ReplCommand::Concept(a) => ReplCommandView::Concept(opt_view(*a)),
            ReplCommand::Related(a) => ReplCommandView::Related(match a {
                Some(p) => Some((p.0@, p.1)),
                None => None,
            }),
            ReplCommand::Learn(a) => ReplCommandView::Learn(opt_view(*a)),
            ReplCommand::LearnText(a) => ReplCommandView::LearnText(opt_view(*a)),
            ReplCommand::Init(a) => ReplCommandView::Init(opt_view(*a)),
            ReplCommand::Books(a) => ReplCommandView::Books(opt_view(*a)),
            ReplCommand::BookInfo(a) => ReplCommandView::BookInfo(opt_view(*a)),
            ReplCommand::Unknown(c) => ReplCommandView::Unknown(c@),
        }
    }
}

/// An argument, unless it is empty.
pub open spec fn given(a: Seq<char>) -> Option<Seq<char>> {
    if a.len() == 0 {
        None
    } else {
        Some(a)
    }
}

/// The depth after a `/related` concept: the number given, or 2.
pub open spec fn related_depth(rest: Option<Seq<char>>) -> usize {
    match rest {
        Some(d) => match parse_usize(d) {
            Some(n) => n,
            None => DEFAULT_RELATED_DEPTH,
        },
        None => DEFAULT_RELATED_DEPTH,
    }
}

/// What a line typed at the prompt asks for.  The line is trimmed; a blank
/// line is nothing; `exit`, `quit`, `/exit` and `/quit` leave; a line not
/// starting with `/` is a question; otherwise the command is the lowercased
/// word before the first space and its argument is everything after that
/// space (empty when there is none).
pub open spec fn repl_command(line: Seq<char>) -> ReplCommandView {
    let t = trim(line);
    if t.len() == 0 {
        ReplCommandView::Empty
    } else if t == "/exit"@ || t == "/quit"@ || t == "exit"@ || t == "quit"@ {
        ReplCommandView::Exit
    } else if t[0] != '/' {
        ReplCommandView::Question(t)
    } else {
        let cmd = lowercase(command_word(t));
        let args = match command_argument(t) {
            Some(a) => a,
            None => Seq::empty(),
        };
        if cmd == "/help"@ || cmd == "/h"@ {
            ReplCommandView::Help
        } else if cmd == "/stats"@ {
            ReplCommandView::Stats
        } else if cmd == "/brain"@ {
            ReplCommandView::Brain
        } else if cmd == "/clear"@ {
            ReplCommandView::Clear
        } else if cmd == "/concept"@ || cmd == "/c"@ {
            ReplCommandView::Concept(given(args))
        } else if cmd == "/related"@ || cmd == "/r"@ {
            ReplCommandView::Related(if args.len() == 0 {
                None
            } else {
                Some((command_word(args), related_depth(command_argument(args))))
            })
        } else if cmd == "/learn"@ {
            ReplCommandView::Learn(given(args))
        } else if cmd == "/learn-text"@ || cmd == "/lt"@ {
            ReplCommandView::LearnText(given(args))
        } else if cmd == "/init"@ {
            ReplCommandView::Init(given(args))
        } else if cmd == "/books"@ {
            ReplCommandView::Books(given(args))
        } else if cmd == "/book-info"@ || cmd == "/book"@ {
            ReplCommandView::BookInfo(given(args))
        } else if cmd == "/exit"@ || cmd == "/quit"@ {
            ReplCommandView::Exit
        } else {
            ReplCommandView::Unknown(cmd)
        }
    }
}

fn given_arg(a: String) -> (r: Option<String>)
    ensures
        opt_view(r) == given(a@),
{
    if a.as_str().is_empty() {
        None
    } else {
        Some(a)
    }
}

/// What a line typed at the prompt asks for (see `repl_command`).
pub fn parse_repl_input(line: &str) -> (r: ReplCommand)
    ensures
        r@ == repl_command(line@),
{
    let t = trim_str(line);
    let ts = t.as_str();
    if ts.is_empty() {
        return ReplCommand::Empty;
    }
    if str_eq(ts, "/exit") || str_eq(ts, "/quit") || str_eq(ts, "exit") || str_eq(ts, "quit") {
        return ReplCommand::Exit;
    }
    if !starts_with_char(ts, '/') {
        return ReplCommand::Question(t);
    }
    let (word, arg) = split_command(ts);
    let cmd = to_lowercase(word.as_str());
    let args = match arg {
        Some(a) => a,
        None => String::new(),
    };
    let c = cmd.as_str();
    if str_eq(c, "/help") || str_eq(c, "/h") {
        ReplCommand::Help
    } else if str_eq(c, "/stats") {
        ReplCommand::Stats
    } else if str_eq(c, "/brain") {
        ReplCommand::Brain
    } else if str_eq(c, "/clear") {
        ReplCommand::Clear
    } else if str_eq(c, "/concept") || str_eq(c, "/c") {
        ReplCommand::Concept(given_arg(args))
    } else if str_eq(c, "/related") || str_eq(c, "/r") {
        if args.as_str().is_empty() {
            ReplCommand::Related(None)
        } else {
            let (name, rest) = split_command(args.as_str());
            let depth = match rest {
                Some(d) => match parse_usize_str(d.as_str()) {
                    Some(n) => n,
                    None => DEFAULT_RELATED_DEPTH,
                },
                None => DEFAULT_RELATED_DEPTH,
            };
            ReplCommand::Related(Some((name, depth)))
        }
    } else if str_eq(c, "/learn") {
        ReplCommand::Learn(given_arg(args))
    } else if str_eq(c, "/learn-text") || str_eq(c, "/lt") {
        ReplCommand::LearnText(given_arg(args))
    } else if str_eq(c, "/init") {
        ReplCommand::Init(given_arg(args))
    } else if str_eq(c, "/books") {
        ReplCommand::Books(given_arg(args))
    } else if str_eq(c, "/book-info") || str_eq(c, "/book") {
        ReplCommand::BookInfo(given_arg(args))
    } else if str_eq(c, "/exit") || str_eq(c, "/quit") {
        ReplCommand::Exit
    } else {
        ReplCommand::Unknown(cmd)
    }
}

/// Whether a book's title contains `filter`, both compared in lowercase.
pub open spec fn title_matches_filter(title: Seq<char>, filter: Seq<char>) -> bool {
    contains(lowercase(title), lowercase(filter))
}

/// The books listed for an optional title filter: all of them without one,
/// else those whose title contains it (compared in lowercase), in order.
pub fn books_matching_title(books: Vec<Book>, filter: Option<&str>) -> (r: Vec<Book>)
    ensures
        match filter {
            None => r@ == books@,
            Some(f) => r@.map_values(|b: Book| b@) == books@.map_values(|b: Book| b@).filter(
                |b: BookView| title_matches_filter(b.title, f@),
            ),
        },
{
    let f = match filter {
        None => return books,
        Some(f) => f,
    };
    let ghost pred = |b: BookView| title_matches_filter(b.title, f@);
    let lf = to_lowercase(f);
    let mut out: Vec<Book> = Vec::new();
    let mut i: usize = 0;
    while i < books.len()
        invariant
            i <= books@.len(),
            lf@ == lowercase(f@),
            pred == (|b: BookView| title_matches_filter(b.title, f@)),
            out@.map_values(|b: Book| b@) == books@.map_values(|b: Book| b@).take(i as int).filter(pred),
        decreases books@.len() - i,
    {
        proof {
            reveal_with_fuel(Seq::<_>::filter, 1);
            assert(books@.map_values(|b: Book| b@).take(i as int + 1).drop_last() =~= books@.map_values(|b: Book| b@).take(i as int));
        }
        let lt = to_lowercase(books[i].title.as_str());
        if str_contains(lt.as_str(), lf.as_str()) {
            let ghost before = out@;
            out.push(books[i].copy());
            assert(out@.map_values(|b: Book| b@) =~= before.map_values(|b: Book| b@).push(books@[i as int]@));
        }
        i = i + 1;
    }
    assert(books@.map_values(|b: Book| b@).take(i as int) =~= books@.map_values(|b: Book| b@));
    out
}

} // verus!
