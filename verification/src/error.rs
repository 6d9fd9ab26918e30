//! The errors of the engine, and their wording.

use vstd::prelude::*;
use vstd::string::*;

verus! {

/// Which of the two coordinates of a move was not found.
#[derive(Clone, Copy, Debug, PartialEq, Eq, Structural)]
pub enum Side {
    Source,
    Destination,
}

/// What is wrong with a structural pattern.
#[derive(Clone, Copy, Debug, PartialEq, Eq, Structural)]
pub enum QuerySyntaxKind {
    Syntax,
    NodeType,
    Field,
    Capture,
    Predicate,
    Structure,
    Language,
}

/// A structural pattern that did not compile.
#[derive(Clone, Debug, PartialEq, Eq)]
pub struct QuerySyntaxError {
    /// One-based line of the offending token.
    pub line: usize,
    /// One-based column of the offending token.
    pub column: usize,
    /// The excerpt of the pattern with a caret under the offending token,
    /// or the name that the grammar does not know.
    pub message: String,
    pub kind: QuerySyntaxKind,
}

/// The stage at which an installation failed.
#[derive(Clone, Copy, Debug, PartialEq, Eq, Structural)]
pub enum InstallStage {
    Download,
    Patch,
    Compile,
    Load,
}

/// An installation that failed, with what the failing command printed.
#[derive(Clone, Debug, PartialEq, Eq)]
pub struct InstallationError {
    pub stage: InstallStage,
    pub output: String,
}

/// Why an operation of the engine gave no result.
#[derive(Clone, Debug, PartialEq, Eq)]
pub enum Error {
    /// A block was built from an empty sequence of nodes.
    EmptyBlock,
    /// A structural pattern is malformed.
    QuerySyntaxError(QuerySyntaxError),
    /// The grammar is not accepted, or gave no tree for the text.
    ParseFailure,
    /// A coordinate matches no block of the forest.
    BlockNotFound(Side),
    /// The legality predicate rejected the move, with its reason.
    IllegalMove(String),
    /// An offset of a block lies outside the text or inside a character.
    InvalidSpan,
    /// The blocks overlap so that the two edits of a move would interfere.
    OverlappingSpans,
    /// A grammar could not be fetched, patched, compiled or loaded.
    InstallationError(InstallationError),
}

/// The character of a decimal digit.
pub open spec fn digit(d: nat) -> char {
    if d == 0 {
        '0'
    } else if d == 1 {
        '1'
    } else if d == 2 {
        '2'
    } else if d == 3 {
        '3'
    } else if d == 4 {
        '4'
    } else if d == 5 {
        '5'
    } else if d == 6 {
        '6'
    } else if d == 7 {
        '7'
    } else if d == 8 {
        '8'
    } else {
        '9'
    }
}

/// A number written in decimal digits, without leading zeros.
pub open spec fn digits(n: nat) -> Seq<char>
    decreases n,
{
    if n < 10 {
        seq![digit(n)]
    } else {
        digits(n / 10).push(digit(n % 10))
    }
}

fn digit_text(d: usize) -> (text: &'static str)
    requires
        d < 10,
    ensures
        text@ == seq![digit(d as nat)],
{
    proof {
        reveal_strlit("0");
        reveal_strlit("1");
        reveal_strlit("2");
        reveal_strlit("3");
        reveal_strlit("4");
        reveal_strlit("5");
        reveal_strlit("6");
        reveal_strlit("7");
        reveal_strlit("8");
        reveal_strlit("9");
    }
    let text = if d == 0 {
        "0"
    } else if d == 1 {
        "1"
    } else if d == 2 {
        "2"
    } else if d == 3 {
        "3"
    } else if d == 4 {
        "4"
    } else if d == 5 {
        "5"
    } else if d == 6 {
        "6"
    } else if d == 7 {
        "7"
    } else if d == 8 {
        "8"
    } else {
        "9"
    };
    assert(text@ =~= seq![digit(d as nat)]);
    text
}

/// Writes a number in decimal digits.
pub fn decimal(n: usize) -> (text: String)
    ensures
        text@ == digits(n as nat),
    decreases n,
{
    if n < 10 {
        digit_text(n).to_owned()
    } else {
        let mut text = decimal(n / 10);
        text.append(digit_text(n % 10));
        assert(text@ =~= digits(n as nat));
        text
    }
}

impl QuerySyntaxKind {
    /// What the kind says of the excerpt that follows it.
    pub open spec fn spec_heading(self) -> Seq<char> {
        match self {
            QuerySyntaxKind::Field => "Invalid field name "@,
            QuerySyntaxKind::NodeType => "Invalid node type "@,
            QuerySyntaxKind::Capture => "Invalid capture name "@,
            QuerySyntaxKind::Predicate => "Invalid predicate: "@,
            QuerySyntaxKind::Structure => "Impossible pattern:\n"@,
            QuerySyntaxKind::Syntax => "Invalid syntax:\n"@,
            QuerySyntaxKind::Language => Seq::empty(),
        }
    }

    /// What the kind says of the excerpt that follows it.
    pub fn heading(&self) -> (text: &'static str)
        ensures
            text@ == self.spec_heading(),
    {
        match self {
            QuerySyntaxKind::Field => "Invalid field name ",
            QuerySyntaxKind::NodeType => "Invalid node type ",
            QuerySyntaxKind::Capture => "Invalid capture name ",
            QuerySyntaxKind::Predicate => "Invalid predicate: ",
            QuerySyntaxKind::Structure => "Impossible pattern:\n",
            QuerySyntaxKind::Syntax => "Invalid syntax:\n",
            QuerySyntaxKind::Language => {
                proof {
                    reveal_strlit("");
                }
                assert(""@ =~= Seq::<char>::empty());
                ""
            },
        }
    }
}

impl QuerySyntaxError {
    /// The error in words: where the pattern fails, what is wrong with it,
    /// and the excerpt. An error of the grammar itself is its message alone.
    pub open spec fn spec_describe(&self) -> Seq<char> {
        if self.kind is Language {
            self.message@
        } else {
            "Query error at "@ + digits(self.line as nat) + ":"@ + digits(self.column as nat)
                + ". "@ + self.kind.spec_heading() + self.message@
        }
    }

    /// The error in words.
    pub fn describe(&self) -> (text: String)
        ensures
            text@ == self.spec_describe(),
    {
        match self.kind {
            QuerySyntaxKind::Language => self.message.clone(),
            _ => {
                let mut text = "Query error at ".to_owned();
                text.append(decimal(self.line).as_str());
                text.append(":");
                text.append(decimal(self.column).as_str());
                text.append(". ");
                text.append(self.kind.heading());
                text.append(self.message.as_str());
                text
            },
        }
    }
}

impl Side {
    /// The short name of the side.
    pub open spec fn spec_name(self) -> Seq<char> {
        match self {
            Side::Source => "src"@,
            Side::Destination => "dst"@,
        }
    }

    /// The short name of the side.
    pub fn name(&self) -> (text: &'static str)
        ensures
            text@ == self.spec_name(),
    {
        match self {
            Side::Source => "src",
            Side::Destination => "dst",
        }
    }
}

impl InstallStage {
    /// What failed at the stage.
    pub open spec fn spec_failure(self) -> Seq<char> {
        match self {
            InstallStage::Download => "failed to download parser"@,
            InstallStage::Patch => "failed to disable language fn mangle"@,
            InstallStage::Compile => "failed to compile parser"@,
            InstallStage::Load => "failed to load parser"@,
        }
    }

    /// What failed at the stage.
    pub fn failure(&self) -> (text: &'static str)
        ensures
            text@ == self.spec_failure(),
    {
        match self {
            InstallStage::Download => "failed to download parser",
            InstallStage::Patch => "failed to disable language fn mangle",
            InstallStage::Compile => "failed to compile parser",
            InstallStage::Load => "failed to load parser",
        }
    }
}

impl Error {
    /// The error in words.
    pub open spec fn spec_describe(&self) -> Seq<char> {
        match self {
            Error::EmptyBlock => "Can't create block empty nodes vec"@,
            Error::QuerySyntaxError(error) => error.spec_describe(),
            Error::ParseFailure => "Failed to parse text"@,
            Error::BlockNotFound(side) => "Failed to find "@ + side.spec_name() + " item"@,
            Error::IllegalMove(reason) => "Illegal move operation: "@ + reason@,
            Error::InvalidSpan => "Block does not lie in the text"@,
            Error::OverlappingSpans => "Can't move a block into or across itself"@,
            Error::InstallationError(error) => error.stage.spec_failure() + ": "@ + error.output@,
        }
    }

    /// The error in words.
    pub fn describe(&self) -> (text: String)
        ensures
            text@ == self.spec_describe(),
    {
        match self {
            Error::EmptyBlock => "Can't create block empty nodes vec".to_owned(),
            Error::QuerySyntaxError(error) => error.describe(),
            Error::ParseFailure => "Failed to parse text".to_owned(),
            Error::BlockNotFound(side) => {
                let mut text = "Failed to find ".to_owned();
                text.append(side.name());
                text.append(" item");
                text
            },
            Error::IllegalMove(reason) => {
                let mut text = "Illegal move operation: ".to_owned();
                text.append(reason.as_str());
                text
            },
            Error::InvalidSpan => "Block does not lie in the text".to_owned(),
            Error::OverlappingSpans => "Can't move a block into or across itself".to_owned(),
            Error::InstallationError(error) => {
                let mut text = error.stage.failure().to_owned();
                text.append(": ");
                text.append(error.output.as_str());
                text
            },
        }
    }
}

} // verus!
