//! The listing of posts that the forum's JSON interface returns.

use vstd::prelude::*;

verus! {

/// A tagged object of the listing: its kind and its data.
pub struct RedditContainer<T> {
    pub kind: String,
    pub data: T,
}

/// A post; only its title is read.
pub struct RedditPost {
    pub title: String,
}

/// A page of posts.
pub struct RedditListing {
    pub children: Vec<RedditContainer<RedditPost>>,
}

/// The titles of the posts, in listing order.
pub open spec fn post_titles(posts: Seq<RedditContainer<RedditPost>>) -> Seq<Seq<char>> {
    posts.map_values(|p: RedditContainer<RedditPost>| p.data.title@)
}

/// The titles of the posts of a listing, in listing order.
pub fn get_post_titles(posts: &RedditContainer<RedditListing>) -> (titles: Vec<String>)
    ensures
        titles.deep_view() == post_titles(posts.data.children@),
{
    let children = &posts.data.children;
    let mut titles: Vec<String> = Vec::new();
    let mut i: usize = 0;
    while i < children.len()
        invariant
            i <= children.len(),
            titles.len() == i,
            titles.deep_view() == post_titles(children@.take(i as int)),
        decreases children.len() - i,
    {
        let ghost before = titles.deep_view();
        titles.push(children[i].data.title.clone());
        assert forall|k: int| 0 <= k < i + 1 implies #[trigger] titles.deep_view()[k] == post_titles(
            children@.take(i + 1),
        )[k] by {
            if k < i {
                assert(titles.deep_view()[k] == before[k]);
                assert(children@.take(i + 1)[k] == children@.take(i as int)[k]);
            }
        }
        assert(titles.deep_view() =~= post_titles(children@.take(i + 1)));
        i = i + 1;
    }
    assert(children@.take(children.len() as int) =~= children@);
    titles
}

/// One title per post, the title of that post, in listing order.
pub proof fn lemma_post_titles(posts: Seq<RedditContainer<RedditPost>>)
    ensures
        post_titles(posts).len() == posts.len(),
        forall|i: int| 0 <= i < posts.len() ==> #[trigger] post_titles(posts)[i] == posts[i].data.title@,
{
}

} // verus!
