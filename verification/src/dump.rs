//! Diagnostic dump of a pool's bucket state as plain text, one line per
//! tracked message.

use vstd::prelude::*;

use crate::bucket::{ascii_seq, BucketMessageView, BucketView};
use crate::manager::{spec_pool_index, PoolManager};
use crate::pool::{GuildPool, UserBucketsView};
use crate::text::{push_u64, spec_digits};

verus! {

/// An ASCII content, read as text.
pub open spec fn spec_content_text(s: Seq<u8>) -> Seq<char> {
    s.map_values(|b: u8| b as char)
}

/// Relies on `String::from_utf8`: a buffer of ASCII bytes decodes to
/// exactly those characters.
#[verifier::external_body]
fn ascii_to_string(v: &Vec<u8>) -> (s: String)
    requires
        ascii_seq(v@),
    ensures
        s@ == spec_content_text(v@),
{
    match String::from_utf8(v.clone()) {
        Ok(s) => s,
        Err(_) => String::new(),
    }
}

/// One dumped message: its identifier, its timestamp in seconds, and its
/// content.
pub open spec fn spec_message_line(m: BucketMessageView) -> Seq<char> {
    "    "@ + spec_digits(m.message_id as int) + " | "@ + spec_digits(m.timestamp as int)
        + " | "@ + spec_content_text(m.content) + "\n"@
}

pub open spec fn spec_message_lines(ms: Seq<BucketMessageView>) -> Seq<char>
    decreases ms.len(),
{
    if ms.len() == 0 {
        Seq::empty()
    } else {
        spec_message_lines(ms.drop_last()) + spec_message_line(ms.last())
    }
}

/// One dumped bucket: its last score and its messages.
pub open spec fn spec_bucket_text(b: BucketView) -> Seq<char> {
    "  Bucket ("@ + spec_digits(b.last_score as int) + "):\n"@ + spec_message_lines(b.messages)
}

pub open spec fn spec_buckets_text(bs: Seq<BucketView>) -> Seq<char>
    decreases bs.len(),
{
    if bs.len() == 0 {
        Seq::empty()
    } else {
        spec_buckets_text(bs.drop_last()) + spec_bucket_text(bs.last())
    }
}

/// One dumped user: the identifier and all open buckets.
pub open spec fn spec_user_text(u: UserBucketsView) -> Seq<char> {
    "User "@ + spec_digits(u.user_id as int) + ":\n"@ + spec_buckets_text(u.buckets)
}

pub open spec fn spec_pool_text(users: Seq<UserBucketsView>) -> Seq<char>
    decreases users.len(),
{
    if users.len() == 0 {
        Seq::empty()
    } else {
        spec_pool_text(users.drop_last()) + spec_user_text(users.last())
    }
}

/// Renders one pool's bucket state as text, user by user.
pub fn render_pool(pool: &GuildPool) -> (s: String)
    requires
        pool@.wf(),
    ensures
        s@ == spec_pool_text(pool@.users),
{
    let users = pool.users();
    let ghost uv = pool@.users;
    let mut s = String::new();
    let mut i: usize = 0;
    proof {
        assert(s@ =~= spec_pool_text(uv.take(0)));
    }
    while i < users.len()
        invariant
            i <= users@.len(),
            uv == users.deep_view(),
            uv.len() == users@.len(),
            pool@.wf(),
            uv == pool@.users,
            s@ == spec_pool_text(uv.take(i as int)),
        decreases users@.len() - i,
    {
        proof {
            assert(uv[i as int].wf());
        }
        s.append("User ");
        push_u64(users[i].user_id, &mut s);
        s.append(":\n");
        proof {
            assert(users[i as int]@ == uv[i as int]);
            assert(users[i as int].user_id == uv[i as int].user_id);
        }
        let buckets = &users[i].buckets;
        let ghost bv = uv[i as int].buckets;
        proof {
            assert(buckets.deep_view() == bv);
        }
        let ghost user_head = spec_pool_text(uv.take(i as int)) + "User "@ + spec_digits(
            uv[i as int].user_id as int,
        ) + ":\n"@;
        proof {
            assert(s@ =~= user_head + spec_buckets_text(bv.take(0)));
        }
        let mut j: usize = 0;
        while j < buckets.len()
            invariant
                j <= buckets@.len(),
                bv == buckets.deep_view(),
                bv.len() == buckets@.len(),
                uv[i as int].wf(),
                0 <= (i as int) < uv.len(),
                bv == uv[i as int].buckets,
                s@ == user_head + spec_buckets_text(bv.take(j as int)),
            decreases buckets@.len() - j,
        {
            proof {
                assert(bv[j as int].wf());
            }
            s.append("  Bucket (");
            push_u64(buckets[j].last_score, &mut s);
            s.append("):\n");
            proof {
                assert(buckets[j as int]@ == bv[j as int]);
            }
            let messages = &buckets[j].messages;
            let ghost mv = bv[j as int].messages;
            proof {
                assert(messages.deep_view() == mv);
            }
            let ghost bucket_head = user_head + spec_buckets_text(bv.take(j as int))
                + "  Bucket ("@ + spec_digits(bv[j as int].last_score as int) + "):\n"@;
            proof {
                assert(s@ =~= bucket_head + spec_message_lines(mv.take(0)));
            }
            let mut k: usize = 0;
            while k < messages.len()
                invariant
                    k <= messages@.len(),
                    mv == messages.deep_view(),
                    mv.len() == messages@.len(),
                    bv[j as int].wf(),
                    0 <= (j as int) < bv.len(),
                    mv == bv[j as int].messages,
                    s@ == bucket_head + spec_message_lines(mv.take(k as int)),
                decreases messages@.len() - k,
            {
                proof {
                    assert(mv[k as int].wf());
                    assert(messages[k as int]@ == mv[k as int]);
                }
                s.append("    ");
                push_u64(messages[k].message_id, &mut s);
                s.append(" | ");
                push_u64(messages[k].timestamp, &mut s);
                s.append(" | ");
                let content = ascii_to_string(&messages[k].content);
                s.append(content.as_str());
                s.append("\n");
                proof {
                    let t = mv.take(k + 1);
                    assert(t.drop_last() =~= mv.take(k as int));
                    assert(t.last() == mv[k as int]);
                    assert(s@ =~= bucket_head + (spec_message_lines(mv.take(k as int))
                        + spec_message_line(mv[k as int])));
                }
                k += 1;
            }
            proof {
                assert(mv.take(mv.len() as int) =~= mv);
                let t = bv.take(j + 1);
                assert(t.drop_last() =~= bv.take(j as int));
                assert(t.last() == bv[j as int]);
                assert(s@ =~= user_head + (spec_buckets_text(bv.take(j as int))
                    + spec_bucket_text(bv[j as int])));
            }
            j += 1;
        }
        proof {
            assert(bv.take(bv.len() as int) =~= bv);
            let t = uv.take(i + 1);
            assert(t.drop_last() =~= uv.take(i as int));
            assert(t.last() == uv[i as int]);
            assert(s@ =~= spec_pool_text(uv.take(i as int)) + spec_user_text(uv[i as int]));
        }
        i += 1;
    }
    proof {
        assert(uv.take(uv.len() as int) =~= uv);
    }
    s
}

impl PoolManager {
    /// The diagnostic dump of one guild's pool, or nothing when the guild
    /// has no open pool.
    pub fn dump(&self, guild_id: u64) -> (r: Option<String>)
        requires
            self.wf(),
        ensures
            match spec_pool_index(self@, guild_id) {
                Some(p) => r is Some && r->Some_0@ == spec_pool_text(self@[p].users),
                None => r is None,
            },
    {
        match self.pool(guild_id) {
            Some(p) => {
                proof {
                    let ghost idx = spec_pool_index(self@, guild_id)->Some_0;
                    assert(self@[idx].wf());
                }
                Some(render_pool(p))
            },
            None => None,
        }
    }
}

} // verus!
