//! The memo record and its mathematical view.

use vstd::prelude::*;

verus! {

/// A single note: an identifier, a title, a body, and the two timestamps
/// stamped when the memo was created. Every field is free-form single-line
/// text; the store enforces no shape on any of them.
#[derive(Debug)]
pub struct Memo {
    pub id: String,
    pub title: String,
    pub content: String,
    pub created_at: String,
    pub updated_at: String,
}

/// The view of a [`Memo`]: its five fields as character sequences.
pub ghost struct MemoView {
    pub id: Seq<char>,
    pub title: Seq<char>,
    pub content: Seq<char>,
    pub created_at: Seq<char>,
    pub updated_at: Seq<char>,
}

impl Clone for Memo {
    /// A clone equals the original in every field.
    fn clone(&self) -> (r: Self)
        ensures
            r == *self,
    {
        Memo {
            id: self.id.clone(),
            title: self.title.clone(),
            content: self.content.clone(),
            created_at: self.created_at.clone(),
            updated_at: self.updated_at.clone(),
        }
    }
}

impl View for Memo {
    type V = MemoView;

    open spec fn view(&self) -> MemoView {
        MemoView {
            id: self.id@,
            title: self.title@,
            content: self.content@,
            created_at: self.created_at@,
            updated_at: self.updated_at@,
        }
    }
}

/// The view of a whole store: each memo's view, in store order.
pub open spec fn store_view(memos: Seq<Memo>) -> Seq<MemoView> {
    memos.map_values(|m: Memo| m@)
}

} // verus!
