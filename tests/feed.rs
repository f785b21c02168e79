use design_kit::twitter::Twitter;

#[test]
fn test_post_and_get_news_feed() {
    let mut twitter = Twitter::new();
    twitter.post_tweet(1, 101);
    twitter.post_tweet(1, 102);
    let feed = twitter.get_news_feed(1);
    assert_eq!(feed, vec![102, 101], "Most recent tweets should appear first");
}

#[test]
fn test_follow_and_get_news_feed() {
    let mut twitter = Twitter::new();
    twitter.post_tweet(1, 101);
    twitter.post_tweet(2, 201);
    twitter.follow(1, 2);
    let feed = twitter.get_news_feed(1);
    assert_eq!(feed, vec![201, 101], "Tweets should be ordered by time, newest first");
}

#[test]
fn test_unfollow() {
    let mut twitter = Twitter::new();
    twitter.post_tweet(1, 101);
    twitter.post_tweet(2, 201);
    twitter.follow(1, 2);

    let feed_before = twitter.get_news_feed(1);
    assert_eq!(feed_before, vec![201, 101], "Should see tweets from followed user");

    twitter.unfollow(1, 2);
    let feed_after = twitter.get_news_feed(1);
    assert_eq!(feed_after, vec![101], "Should not see tweets from unfollowed user");
}

#[test]
fn test_feed_limit() {
    let mut twitter = Twitter::new();
    for i in 1..=15 {
        twitter.post_tweet(1, i);
    }
    let feed = twitter.get_news_feed(1);
    assert_eq!(feed.len(), 10, "Feed should be limited to 10 items");
    for i in 0..9 {
        assert!(feed[i] > feed[i + 1], "Tweets should be in descending order by ID");
    }
}

#[test]
fn test_follow_self() {
    let mut twitter = Twitter::new();
    twitter.follow(1, 1);
    assert!(!twitter.is_following(1, 1), "User should not be able to follow themselves");
}

#[test]
fn test_interleaved_timeline() {
    let mut twitter = Twitter::new();
    twitter.post_tweet(1, 101);
    twitter.post_tweet(2, 201);
    twitter.post_tweet(1, 102);
    twitter.post_tweet(2, 202);
    twitter.follow(1, 2);
    let feed = twitter.get_news_feed(1);
    assert_eq!(
        feed,
        vec![202, 102, 201, 101],
        "Feed should contain interleaved tweets in chronological order"
    );
}

#[test]
fn test_multiple_follows_and_unfollows() {
    let mut twitter = Twitter::new();
    twitter.post_tweet(1, 101);
    twitter.post_tweet(2, 201);
    twitter.post_tweet(3, 301);
    twitter.follow(1, 2);
    twitter.follow(1, 3);
    let feed1 = twitter.get_news_feed(1);
    assert_eq!(feed1.len(), 3, "Should see tweets from all followed users");
    twitter.unfollow(1, 2);
    let feed2 = twitter.get_news_feed(1);
    assert_eq!(feed2.len(), 2, "Should only see tweets from self and User 3");
    assert!(feed2.contains(&101), "Should contain own tweet");
    assert!(feed2.contains(&301), "Should contain User 3's tweet");
    assert!(!feed2.contains(&201), "Should not contain User 2's tweet");
}

#[test]
fn test_follow_twice() {
    let mut twitter = Twitter::new();
    twitter.post_tweet(2, 201);
    twitter.follow(1, 2);
    twitter.follow(1, 2);
    let feed = twitter.get_news_feed(1);
    assert_eq!(feed, vec![201], "Following twice shouldn't duplicate tweets");
}

#[test]
fn test_empty_news_feed() {
    let twitter = Twitter::new();
    let feed = twitter.get_news_feed(1);
    assert_eq!(feed.len(), 0, "News feed should be empty for new users");
}

#[test]
fn test_unfollow_nonexistent() {
    let mut twitter = Twitter::new();
    twitter.unfollow(1, 999);
    assert!(!twitter.is_following(1, 999), "Should not be following non-existent user");
}

#[test]
fn test_large_number_of_tweets() {
    let mut twitter = Twitter::new();
    for i in 1..=100 {
        twitter.post_tweet(1, i);
    }
    let tweets = twitter.get_user_tweets(1, None);
    assert_eq!(tweets.len(), 100, "All tweets should be stored without cleanup");
    let feed = twitter.get_news_feed(1);
    assert_eq!(feed.len(), 10, "News feed should still be limited to 10 items");
    assert_eq!(feed[0], 100, "Most recent tweet should be first");
    assert_eq!(feed[9], 91, "News feed should have most recent 10 tweets");
}

#[test]
fn followers_and_user_tweets() {
    let mut twitter = Twitter::new();
    twitter.follow(1, 3);
    twitter.follow(2, 3);
    twitter.follow(2, 3);
    twitter.follow(3, 1);
    assert_eq!(twitter.get_followers_count(3), 2);
    assert_eq!(twitter.get_followers_count(1), 1);
    assert_eq!(twitter.get_followers_count(2), 0);
    twitter.post_tweet(3, 31);
    twitter.post_tweet(1, 11);
    twitter.post_tweet(3, 32);
    twitter.post_tweet(3, 33);
    assert_eq!(twitter.get_user_tweets(3, Some(2)), vec![33, 32]);
    assert_eq!(twitter.get_user_tweets(3, None), vec![33, 32, 31]);
    assert_eq!(twitter.get_user_tweets(4, None), Vec::<i32>::new());
}
