//! Rewrites of paths, as the plan lists them.
use vstd::prelude::*;

use crate::text::opt_view;

verus! {

/// What a rewrite is for.
#[derive(Clone, Copy, PartialEq, Eq, Structural, Debug)]
pub enum RewriteKind {
    Executable,
    StorePathReference,
}

impl RewriteKind {
    pub open spec fn view(self) -> Seq<char> {
        match self {
            RewriteKind::Executable => "executable"@,
            RewriteKind::StorePathReference => "store-path-reference"@,
        }
    }

    pub fn text(self) -> (r: &'static str)
        ensures
            r@ == self@,
    {
        match self {
            RewriteKind::Executable => "executable",
            RewriteKind::StorePathReference => "store-path-reference",
        }
    }
}

/// A path, and what is to stand in its place.
pub struct Rewrite {
    pub from: String,
    pub to: String,
    pub kind: RewriteKind,
    pub referenced_by: Option<String>,
}

/// The model of a rewrite.
pub struct RewriteView {
    pub from: Seq<char>,
    pub to: Seq<char>,
    pub kind: RewriteKind,
    pub referenced_by: Option<Seq<char>>,
}

impl Rewrite {
    pub open spec fn view(self) -> RewriteView {
        RewriteView {
            from: self.from@,
            to: self.to@,
            kind: self.kind,
            referenced_by: opt_view(self.referenced_by),
        }
    }

    pub fn copy(&self) -> (r: Rewrite)
        ensures
            r@ == self@,
    {
        Rewrite {
            from: self.from.clone(),
            to: self.to.clone(),
            kind: self.kind,
            referenced_by: match &self.referenced_by {
                Some(s) => Some(s.clone()),
                None => None,
            },
        }
    }
}

pub open spec fn rewrite_views(list: Seq<Rewrite>) -> Seq<RewriteView> {
    list.map_values(|r: Rewrite| r.view())
}

} // verus!
