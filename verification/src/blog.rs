//! A blog post workflow: a draft must be reviewed and approved before its
//! content becomes visible.
use vstd::prelude::*;

verus! {

/// Where a post stands in the workflow.
#[derive(PartialEq, Eq, Structural, Debug, Clone, Copy)]
pub enum PostState {
    Draft,
    PendingReview,
    Published,
}

/// A blog post: text plus its place in the workflow. A new post always
/// starts as a draft, and only the listed methods move it forward.
pub struct Post {
    state: PostState,
    content: String,
}

impl Post {
    /// The post's place in the workflow.
    pub closed spec fn spec_state(&self) -> PostState {
        self.state
    }

    /// The post's stored text.
    pub closed spec fn spec_content(&self) -> Seq<char> {
        self.content@
    }

    /// Starts a fresh, empty draft.
    pub fn new() -> (p: Post)
        ensures
            p.spec_state() == PostState::Draft,
            p.spec_content() == Seq::<char>::empty(),
    {
        Post { state: PostState::Draft, content: String::new() }
    }

    /// Appends text to the post, whatever its state.
    pub fn add_text(&mut self, text: &str)
        ensures
            final(self).spec_state() == old(self).spec_state(),
            final(self).spec_content() == old(self).spec_content() + text@,
    {
        self.content.append(text);
    }

    /// The visible content: the stored text once published, and nothing
    /// before that.
    pub fn content(&self) -> (r: &str)
        ensures
            self.spec_state() == PostState::Published ==> r@ == self.spec_content(),
            self.spec_state() != PostState::Published ==> r@ == Seq::<char>::empty(),
    {
        match self.state {
            PostState::Published => self.content.as_str(),
            _ => {
                let r = "";
                proof {
                    reveal_strlit("");
                    assert(r@ =~= Seq::<char>::empty());
                }
                r
            },
        }
    }

    /// Sends a draft for review; any other state stays as it is.
    pub fn request_review(&mut self)
        ensures
            final(self).spec_content() == old(self).spec_content(),
            old(self).spec_state() == PostState::Draft ==> final(self).spec_state()
                == PostState::PendingReview,
            old(self).spec_state() != PostState::Draft ==> final(self).spec_state() == old(
                self,
            ).spec_state(),
    {
        match self.state {
            PostState::Draft => {
                self.state = PostState::PendingReview;
            },
            _ => {},
        }
    }

    /// Publishes a post under review; any other state stays as it is.
    pub fn approve(&mut self)
        ensures
            final(self).spec_content() == old(self).spec_content(),
            old(self).spec_state() == PostState::PendingReview ==> final(self).spec_state()
                == PostState::Published,
            old(self).spec_state() != PostState::PendingReview ==> final(self).spec_state()
                == old(self).spec_state(),
    {
        match self.state {
            PostState::PendingReview => {
                self.state = PostState::Published;
            },
            _ => {},
        }
    }
}

} // verus!
