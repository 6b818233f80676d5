//! Pull requests and their mathematical content.

use vstd::prelude::*;

verus! {

/// A pull request: `head` is its source branch, `base` the branch it targets.
#[derive(Debug)]
pub struct PullRequest {
    /// The number under which the hosting platform knows it.
    pub number: i32,
    /// Its title, for display.
    pub title: String,
    /// The branch it comes from.
    pub head: String,
    /// The branch it targets.
    pub base: String,
    /// Its description.
    pub body: String,
}

/// What a `PullRequest` holds, as plain mathematical values.
pub struct RequestView {
    pub number: int,
    pub title: Seq<char>,
    pub head: Seq<char>,
    pub base: Seq<char>,
    pub body: Seq<char>,
}

impl View for PullRequest {
    type V = RequestView;

    open spec fn view(&self) -> RequestView {
        RequestView {
            number: self.number as int,
            title: self.title@,
            head: self.head@,
            base: self.base@,
            body: self.body@,
        }
    }
}

impl DeepView for PullRequest {
    type V = RequestView;

    open spec fn deep_view(&self) -> RequestView {
        self.view()
    }
}

impl Clone for PullRequest {
    fn clone(&self) -> (copy: Self)
        ensures
            copy@ == self@,
    {
        PullRequest {
            number: self.number,
            title: self.title.clone(),
            head: self.head.clone(),
            base: self.base.clone(),
            body: self.body.clone(),
        }
    }
}

} // verus!
