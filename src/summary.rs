//! Short summaries of posted items.

use vstd::prelude::*;
use vstd::string::*;

verus! {

/// An item that can be summarized by naming its author.
pub trait Summary {
    /// The text that names the author.
    spec fn author_text(&self) -> Seq<char>;

    /// The text that names the author.
    fn summarize_author(&self) -> (r: String)
        ensures
            r@ == self.author_text(),
    ;

    /// A one-line teaser that points to the author.
    fn summarize(&self) -> (r: String)
        ensures
            r@ == "(Read more from "@ + self.author_text() + "...)"@,
    {
        let mut s = String::from_str("(Read more from ");
        let author = self.summarize_author();
        s.append(author.as_str());
        s.append("...)");
        s
    }
}

/// A news article.
pub struct NewsArticle {
    pub headline: String,
    pub location: String,
    pub author: String,
    pub content: String,
}

impl Summary for NewsArticle {
    open spec fn author_text(&self) -> Seq<char> {
        "@"@ + self.author@
    }

    fn summarize_author(&self) -> (r: String) {
        let mut s = String::from_str("@");
        s.append(self.author.as_str());
        s
    }
}

/// A short post.
pub struct Tweet {
    pub username: String,
    pub content: String,
    pub reply: bool,
    pub retweet: bool,
}

impl Summary for Tweet {
    open spec fn author_text(&self) -> Seq<char> {
        "@"@ + self.username@
    }

    fn summarize_author(&self) -> (r: String) {
        let mut s = String::from_str("@");
        s.append(self.username.as_str());
        s
    }
}

} // verus!
