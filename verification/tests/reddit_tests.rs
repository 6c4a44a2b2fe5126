use tendie_factory::reddit::{get_post_titles, RedditContainer, RedditListing, RedditPost};

fn post(title: &str) -> RedditContainer<RedditPost> {
    RedditContainer { kind: "t3".to_string(), data: RedditPost { title: title.to_string() } }
}

#[test]
fn titles_in_listing_order() {
    let listing = RedditContainer {
        kind: "Listing".to_string(),
        data: RedditListing { children: vec![post("first"), post("second"), post("first")] },
    };
    assert_eq!(get_post_titles(&listing), vec!["first", "second", "first"]);
}

#[test]
fn empty_listing_has_no_titles() {
    let listing = RedditContainer { kind: "Listing".to_string(), data: RedditListing { children: vec![] } };
    assert!(get_post_titles(&listing).is_empty());
}
