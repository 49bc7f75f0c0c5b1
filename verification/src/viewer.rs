//! The state behind the display: the latest match and how it is shown.
//!
//! The display itself, and the channel that the matches arrive on, belong to
//! the program around the library. On each poll the program hands over what
//! the channel held, and reads back the texts to show.
use vstd::prelude::*;
use vstd::string::*;

verus! {

/// A match as it arrives from the pipeline: the path of the best catalog
/// entry, its distance, and the label of the symbol.
pub type ViewerEvent = (Option<String>, Option<u32>, Option<String>);

/// What the display shows.
pub struct Viewer {
    pub best_match_path: Option<String>,
    pub score: Option<u32>,
    pub set_symbol: Option<String>,
}

/// What can happen to the display.
#[derive(Debug)]
pub enum ViewerMessage {
    /// It is time to look for a new match.
    Poll,
}

/// The decimal digit for `d`.
pub open spec fn digit(d: int) -> char {
    if d == 0 {
        '0'
    } else if d == 1 {
        '1'
    } else if d == 2 {
        '2'
    } else if d == 3 {
        '3'
    } else if d == 4 {
        '4'
    } else if d == 5 {
        '5'
    } else if d == 6 {
        '6'
    } else if d == 7 {
        '7'
    } else if d == 8 {
        '8'
    } else {
        '9'
    }
}

/// The number `n` in decimal, without leading zeros.
pub open spec fn decimal(n: nat) -> Seq<char>
    decreases n,
{
    if n < 10 {
        seq![digit(n as int)]
    } else {
        decimal(n / 10).push(digit((n % 10) as int))
    }
}

/// The picture shown while there is no match.
pub open spec fn placeholder_path() -> Seq<char> {
    "cardback.jpg"@
}

/// The text shown in place of a value that is not known.
pub open spec fn unknown() -> Seq<char> {
    "--"@
}

/// The path of the picture of the symbol `name`.
pub open spec fn symbol_file(name: Seq<char>) -> Seq<char> {
    "templates/"@ + name + ".svg"@
}

/// The text of one decimal digit.
fn digit_text(d: u32) -> (text: &'static str)
    requires
        d < 10,
    ensures
        text@ == seq![digit(d as int)],
{
    proof {
        reveal_strlit("0");
        reveal_strlit("1");
        reveal_strlit("2");
        reveal_strlit("3");
        reveal_strlit("4");
        reveal_strlit("5");
        reveal_strlit("6");
        reveal_strlit("7");
        reveal_strlit("8");
        reveal_strlit("9");
    }
    let text: &'static str = if d == 0 {
        "0"
    } else if d == 1 {
        "1"
    } else if d == 2 {
        "2"
    } else if d == 3 {
        "3"
    } else if d == 4 {
        "4"
    } else if d == 5 {
        "5"
    } else if d == 6 {
        "6"
    } else if d == 7 {
        "7"
    } else if d == 8 {
        "8"
    } else {
        "9"
    };
    assert(text@ =~= seq![digit(d as int)]);
    text
}

/// Writes `n` in decimal.
pub fn decimal_text(n: u32) -> (text: String)
    ensures
        text@ == decimal(n as nat),
    decreases n,
{
    if n < 10 {
        String::from_str(digit_text(n))
    } else {
        let mut text: String = decimal_text(n / 10);
        text.append(digit_text(n % 10));
        assert(text@ =~= decimal(n as nat));
        text
    }
}

impl Viewer {
    /// A display with nothing to show yet.
    pub fn new() -> (viewer: Viewer)
        ensures
            viewer.best_match_path.is_none(),
            viewer.score.is_none(),
            viewer.set_symbol.is_none(),
    {
        Viewer { best_match_path: None, score: None, set_symbol: None }
    }

    /// The title of the window.
    pub fn title(&self) -> (title: String)
        ensures
            title@ == "Viewer"@,
    {
        String::from_str("Viewer")
    }

    /// Takes in what a poll of the channel gave: a match replaces what is
    /// shown, and without one the display stays as it is.
    pub fn update(&mut self, message: ViewerMessage, event: Option<ViewerEvent>)
        ensures
            match event {
                Some(shown) => {
                    &&& final(self).best_match_path == shown.0
                    &&& final(self).score == shown.1
                    &&& final(self).set_symbol == shown.2
                },
                None => *final(self) == *old(self),
            },
    {
        match message {
            ViewerMessage::Poll => {
                match event {
                    Some(shown) => {
                        self.best_match_path = shown.0;
                        self.score = shown.1;
                        self.set_symbol = shown.2;
                    },
                    None => {},
                }
            },
        }
    }

    /// The path of the picture to show: the best match, or the placeholder.
    pub fn image_path(&self) -> (path: String)
        ensures
            path@ == match self.best_match_path {
                Some(best) => best@,
                None => placeholder_path(),
            },
    {
        match &self.best_match_path {
            Some(best) => best.clone(),
            None => String::from_str("cardback.jpg"),
        }
    }

    /// The distance of the best match in decimal, or two dashes.
    pub fn score_text(&self) -> (text: String)
        ensures
            text@ == match self.score {
                Some(score) => decimal(score as nat),
                None => unknown(),
            },
    {
        match self.score {
            Some(score) => decimal_text(score),
            None => String::from_str("--"),
        }
    }

    /// The path of the picture of the symbol, or of the one that stands for
    /// no symbol.
    pub fn symbol_path(&self) -> (path: String)
        ensures
            path@ == symbol_file(
                match self.set_symbol {
                    Some(name) => name@,
                    None => unknown(),
                },
            ),
    {
        let mut path: String = String::from_str("templates/");
        match &self.set_symbol {
            Some(name) => {
                path.append(name.as_str());
            },
            None => {
                path.append("--");
            },
        }
        path.append(".svg");
        path
    }
}

} // verus!
