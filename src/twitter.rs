//! A small social feed: users post tweets, follow one another, and read the
//! newest tweets of themselves and of those they follow.
//!
//! Time is a logical clock that advances by one with every post, so later
//! tweets are always newer.
use vstd::prelude::*;

verus! {

/// The number of tweets a news feed shows at most.
pub const FEED_SIZE: usize = 10;

pub struct Tweet {
    pub user_id: i32,
    pub tweet_id: i32,
    pub timestamp: u64,
}

impl Tweet {
    pub fn new(user_id: i32, tweet_id: i32, timestamp: u64) -> (r: Self)
        ensures
            r == (Tweet { user_id, tweet_id, timestamp }),
    {
        Tweet { user_id, tweet_id, timestamp }
    }
}

/// The ids of the at most `n` newest tweets of `ts` (oldest first) that `shown`
/// admits, newest first.
pub open spec fn newest_of(ts: Seq<Tweet>, shown: spec_fn(Tweet) -> bool, n: nat) -> Seq<i32>
    decreases ts.len(),
{
    if ts.len() == 0 || n == 0 {
        Seq::empty()
    } else if shown(ts.last()) {
        seq![ts.last().tweet_id] + newest_of(ts.drop_last(), shown, (n - 1) as nat)
    } else {
        newest_of(ts.drop_last(), shown, n)
    }
}

/// `viewer` sees the tweets of `author` in their feed.
pub open spec fn sees(follows: Seq<(i32, i32)>, viewer: i32, author: i32) -> bool {
    author == viewer || follows.contains((viewer, author))
}

/// How many pairs of `s` have `u` as their followee.
pub open spec fn follower_count(s: Seq<(i32, i32)>, u: i32) -> nat
    decreases s.len(),
{
    if s.len() == 0 {
        0
    } else {
        follower_count(s.drop_last(), u) + if s.last().1 == u {
            1nat
        } else {
            0nat
        }
    }
}

/// Admits the tweets of `viewer` and of those they follow.
pub open spec fn feed_filter(follows: Seq<(i32, i32)>, viewer: i32) -> spec_fn(Tweet) -> bool {
    |t: Tweet| sees(follows, viewer, t.user_id)
}

/// Admits the tweets of `author`.
pub open spec fn author_filter(author: i32) -> spec_fn(Tweet) -> bool {
    |t: Tweet| t.user_id == author
}

pub open spec fn pairs_unique(s: Seq<(i32, i32)>) -> bool {
    forall|i: int, j: int| 0 <= i < s.len() && 0 <= j < s.len() && i != j ==> s[i] != s[j]
}

pub struct Twitter {
    tweets: Vec<Tweet>,
    followees: Vec<(i32, i32)>,
    clock: u64,
}

impl Twitter {
    /// Every tweet posted, oldest first.
    pub closed spec fn tweets(&self) -> Seq<Tweet> {
        self.tweets@
    }

    /// The (follower, followee) pairs, in the order they were made.
    pub closed spec fn follows(&self) -> Seq<(i32, i32)> {
        self.followees@
    }

    pub closed spec fn clock(&self) -> nat {
        self.clock as nat
    }

    pub closed spec fn wf(&self) -> bool {
        &&& pairs_unique(self.followees@)
        &&& forall|i: int| 0 <= i < self.followees@.len() ==> #[trigger] self.followees@[i].0 != self.followees@[i].1
    }

    pub fn new() -> (r: Self)
        ensures
            r.wf(),
            r.tweets() == Seq::<Tweet>::empty(),
            r.follows() == Seq::<(i32, i32)>::empty(),
            r.clock() == 0,
    {
        Twitter { tweets: Vec::new(), followees: Vec::new(), clock: 0 }
    }

    /// Posts a tweet, stamped with the current logical time.
    pub fn post_tweet(&mut self, user_id: i32, tweet_id: i32)
        requires
            old(self).wf(),
            old(self).clock() < u64::MAX,
        ensures
            final(self).wf(),
            final(self).follows() == old(self).follows(),
            final(self).tweets() == old(self).tweets().push(
                Tweet { user_id, tweet_id, timestamp: old(self).clock() as u64 },
            ),
            final(self).clock() == old(self).clock() + 1,
    {
        let t = Tweet::new(user_id, tweet_id, self.clock);
        self.tweets.push(t);
        self.clock = self.clock + 1;
    }

    fn position(&self, follower_id: i32, followee_id: i32) -> (r: Option<usize>)
        ensures
            match r {
                Some(i) => i < self.follows().len() && self.follows()[i as int] == (follower_id, followee_id),
                None => !self.follows().contains((follower_id, followee_id)),
            },
    {
        let mut i: usize = 0;
        while i < self.followees.len()
            invariant
                i <= self.followees@.len(),
                forall|j: int| 0 <= j < i ==> self.followees@[j] != (follower_id, followee_id),
            decreases self.followees@.len() - i,
        {
            let p = self.followees[i];
            if p.0 == follower_id && p.1 == followee_id {
                return Some(i);
            }
            i = i + 1;
        }
        None
    }

    /// Whether `follower_id` follows `followee_id`.
    pub fn is_following(&self, follower_id: i32, followee_id: i32) -> (r: bool)
        ensures
            r == self.follows().contains((follower_id, followee_id)),
    {
        self.position(follower_id, followee_id).is_some()
    }

    /// Makes `follower_id` follow `followee_id`; following oneself or following
    /// twice changes nothing.
    pub fn follow(&mut self, follower_id: i32, followee_id: i32)
        requires
            old(self).wf(),
        ensures
            final(self).wf(),
            final(self).tweets() == old(self).tweets(),
            final(self).clock() == old(self).clock(),
            final(self).follows() == if follower_id == followee_id || old(self).follows().contains(
                (follower_id, followee_id),
            ) {
                old(self).follows()
            } else {
                old(self).follows().push((follower_id, followee_id))
            },
    {
        if follower_id == followee_id {
            return;
        }
        if self.position(follower_id, followee_id).is_none() {
            self.followees.push((follower_id, followee_id));
        }
    }

    /// Makes `follower_id` stop following `followee_id`, if they did.
    pub fn unfollow(&mut self, follower_id: i32, followee_id: i32)
        requires
            old(self).wf(),
        ensures
            final(self).wf(),
            final(self).tweets() == old(self).tweets(),
            final(self).clock() == old(self).clock(),
            !final(self).follows().contains((follower_id, followee_id)),
            forall|p: (i32, i32)|
                p != (follower_id, followee_id) ==> (final(self).follows().contains(p) <==> old(
                    self,
                ).follows().contains(p)),
    {
        match self.position(follower_id, followee_id) {
            Some(i) => {
                let ghost s = self.followees@;
                self.followees.remove(i);
                proof {
                    let t = self.followees@;
                    assert forall|a: int| 0 <= a < t.len() implies t[a] == s[if a < i { a } else { a + 1 }] by {}
                    assert forall|p: (i32, i32)| p != (follower_id, followee_id) implies (t.contains(p) <==> s.contains(p)) by {
                        if s.contains(p) {
                            let j = choose|j: int| 0 <= j < s.len() && s[j] == p;
                            assert(t[if j < i { j } else { j - 1 }] == p);
                        }
                    }
                    if t.contains((follower_id, followee_id)) {
                        let j = choose|j: int| 0 <= j < t.len() && t[j] == (follower_id, followee_id);
                        assert(t[j] == s[if j < i { j } else { j + 1 }]);
                    }
                    assert forall|a: int, b: int| 0 <= a < t.len() && 0 <= b < t.len() && a != b implies t[a] != t[b] by {
                        assert(t[a] == s[if a < i { a } else { a + 1 }]);
                        assert(t[b] == s[if b < i { b } else { b + 1 }]);
                    }
                    assert forall|a: int| 0 <= a < t.len() implies #[trigger] t[a].0 != t[a].1 by {
                        assert(t[a] == s[if a < i { a } else { a + 1 }]);
                    }
                }
            },
            None => {},
        }
    }

    /// How many users follow `user_id`.
    pub fn get_followers_count(&self, user_id: i32) -> (r: usize)
        ensures
            r == follower_count(self.follows(), user_id),
    {
        let mut count: usize = 0;
        let mut i: usize = 0;
        while i < self.followees.len()
            invariant
                i <= self.followees@.len(),
                count == follower_count(self.followees@.subrange(0, i as int), user_id),
                count <= i,
            decreases self.followees@.len() - i,
        {
            proof {
                let s = self.followees@;
                assert(s.subrange(0, i + 1).drop_last() =~= s.subrange(0, i as int));
            }
            if self.followees[i].1 == user_id {
                count = count + 1;
            }
            i = i + 1;
        }
        proof {
            assert(self.followees@.subrange(0, i as int) =~= self.followees@);
        }
        count
    }

    /// The ids of the at most `n` newest tweets of `viewer`'s feed, or of
    /// `viewer` alone, newest first.
    fn collect_newest(&self, viewer: i32, only_own: bool, n: usize) -> (r: Vec<i32>)
        ensures
            r@ == newest_of(
                self.tweets(),
                if only_own {
                    author_filter(viewer)
                } else {
                    feed_filter(self.follows(), viewer)
                },
                n as nat,
            ),
    {
        let ghost shown = if only_own {
            author_filter(viewer)
        } else {
            feed_filter(self.follows(), viewer)
        };
        let ghost ts = self.tweets@;
        let mut out: Vec<i32> = Vec::new();
        let mut i: usize = self.tweets.len();
        assert(ts.subrange(0, i as int) =~= ts);
        while i > 0 && out.len() < n
            invariant
                ts == self.tweets@,
                shown == if only_own {
                    author_filter(viewer)
                } else {
                    feed_filter(self.follows(), viewer)
                },
                i <= ts.len(),
                out@.len() <= n,
                out@ + newest_of(ts.subrange(0, i as int), shown, (n - out@.len()) as nat) == newest_of(ts, shown, n as nat),
            decreases i,
        {
            let t = &self.tweets[i - 1];
            proof {
                assert(ts.subrange(0, i as int).drop_last() =~= ts.subrange(0, i - 1));
                assert(ts.subrange(0, i as int).last() == ts[i - 1]);
            }
            let visible = if only_own {
                t.user_id == viewer
            } else {
                t.user_id == viewer || self.is_following(viewer, t.user_id)
            };
            let ghost m = (n - out@.len()) as nat;
            assert(visible == shown(ts[i - 1]));
            assert(newest_of(ts.subrange(0, i as int), shown, m) == if visible {
                seq![t.tweet_id] + newest_of(ts.subrange(0, i - 1), shown, (m - 1) as nat)
            } else {
                newest_of(ts.subrange(0, i - 1), shown, m)
            });
            if visible {
                let ghost before = out@;
                out.push(t.tweet_id);
                proof {
                    assert(out@ =~= before + seq![t.tweet_id]);
                    assert((before + seq![t.tweet_id]) + newest_of(ts.subrange(0, i - 1), shown, (n - out@.len()) as nat)
                        =~= before + (seq![t.tweet_id] + newest_of(ts.subrange(0, i - 1), shown, (n - out@.len()) as nat)));
                }
            }
            i = i - 1;
        }
        proof {
            if i == 0 {
                assert(ts.subrange(0, 0).len() == 0);
            }
            assert(out@ + Seq::<i32>::empty() =~= out@);
        }
        out
    }

    /// The ids of the newest tweets of `user_id` and of those they follow, newest
    /// first, at most `FEED_SIZE` of them.
    pub fn get_news_feed(&self, user_id: i32) -> (r: Vec<i32>)
        ensures
            r@ == newest_of(self.tweets(), feed_filter(self.follows(), user_id), FEED_SIZE as nat),
    {
        self.collect_newest(user_id, false, FEED_SIZE)
    }

    /// The ids of the tweets of `user_id`, newest first, at most `limit` of them
    /// where a limit is given.
    pub fn get_user_tweets(&self, user_id: i32, limit: Option<usize>) -> (r: Vec<i32>)
        ensures
            r@ == newest_of(self.tweets(), author_filter(user_id), match limit {
                Some(l) => l as nat,
                None => self.tweets().len(),
            }),
    {
        let n = match limit {
            Some(l) => l,
            None => self.tweets.len(),
        };
        self.collect_newest(user_id, true, n)
    }
}

} // verus!
