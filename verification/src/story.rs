use vstd::prelude::*;

verus! {

/// One fetched story record: an immutable value built once from a single
/// item-detail payload and held only for the duration of a render pass.
///
/// `kids.len()` is the number of direct comments shown in the UI; it need
/// not equal `descendants`, which counts the whole comment subtree.
#[derive(Clone, Debug, PartialEq)]
pub struct StoryItem {
    /// Identifier of the story, as supplied by the ranking endpoint.
    pub id: i64,
    /// Title of the story; a payload without one is rejected.
    pub title: String,
    /// Link target; self/text posts may omit it.
    pub url: Option<String>,
    /// Text body for text posts.
    pub text: Option<String>,
    /// Author handle; defaults to the empty string.
    pub by: String,
    /// Vote count; defaults to 0.
    pub score: i64,
    /// Size of the whole comment subtree; defaults to 0.
    pub descendants: i64,
    /// Submission time, as Unix epoch seconds.
    pub time: i64,
    /// Identifiers of the direct comments, in order; defaults to empty.
    pub kids: Vec<i64>,
    /// Tag such as "story", "job" or "poll"; not validated further.
    pub kind: String,
}

/// Builds a [`StoryItem`] from the fields of one decoded item payload,
/// applying the defaulting rules of the data model: `by` defaults to the
/// empty string, `score` and `descendants` to 0, and `kids` to the empty
/// list. `title`, `time` and `kind` are required; a payload missing any of
/// them fails the one item, which the caller then drops.
pub fn story_from_fields(
    id: i64,
    title: Option<String>,
    url: Option<String>,
    text: Option<String>,
    by: Option<String>,
    score: Option<i64>,
    descendants: Option<i64>,
    time: Option<i64>,
    kids: Option<Vec<i64>>,
    kind: Option<String>,
) -> (r: Option<StoryItem>)
    ensures
        r is Some <==> (title is Some && time is Some && kind is Some),
        r matches Some(s) ==> {
            &&& s.id == id
            &&& s.title == title->0
            &&& s.url == url
            &&& s.text == text
            &&& (by matches Some(b) ==> s.by == b)
            &&& (by is None ==> s.by@ == Seq::<char>::empty())
            &&& s.score == (if score is Some { score->0 } else { 0 })
            &&& s.descendants == (if descendants is Some { descendants->0 } else { 0 })
            &&& s.time == time->0
            &&& (kids matches Some(k) ==> s.kids == k)
            &&& (kids is None ==> s.kids@ == Seq::<i64>::empty())
            &&& s.kind == kind->0
        },
{
    let title = match title {
        Some(t) => t,
        None => {
            return None;
        },
    };
    let time = match time {
        Some(t) => t,
        None => {
            return None;
        },
    };
    let kind = match kind {
        Some(k) => k,
        None => {
            return None;
        },
    };
    let by = match by {
        Some(b) => b,
        None => String::new(),
    };
    let score = match score {
        Some(v) => v,
        None => 0,
    };
    let descendants = match descendants {
        Some(v) => v,
        None => 0,
    };
    let kids = match kids {
        Some(k) => k,
        None => Vec::new(),
    };
    Some(StoryItem { id, title, url, text, by, score, descendants, time, kids, kind })
}

} // verus!
