//! The validity-predicate side of the ledger that consumes the store as a
//! versioned oracle. Of its checks, the one the core owns is the channel
//! counter rule: a transaction that touches the counter must strictly
//! increase it. The pre- and post-state counter bytes are handed in by the
//! caller, which reads them through the store.

use vstd::prelude::*;

use crate::codec::le_val;

verus! {

/// A failure of a channel-validity check.
#[derive(Debug)]
pub enum Error {
    /// The stored counter is absent or malformed.
    ChannelError { error: String },
}

/// The counter value held in eight little-endian bytes.
pub open spec fn counter_of(v: Seq<u8>) -> Option<u64> {
    if v.len() == 8 && le_val(v) <= u64::MAX {
        Some(le_val(v) as u64)
    } else {
        None
    }
}

/// What the in-progress state's counter reads as: counters start at zero,
/// so an absent or malformed value reads as zero.
pub open spec fn spec_post_counter(post: Option<Vec<u8>>) -> u64 {
    match post {
        Some(v) => if counter_of(v@) is Some {
            counter_of(v@).unwrap()
        } else {
            0u64
        },
        None => 0u64,
    }
}

/// The channel validity predicate's view of one transaction: the counter
/// bytes before the block and after it, as the store returned them.
pub struct Ibc {
    /// The counter's bytes in the last committed state, if stored.
    pub pre_counter: Option<Vec<u8>>,
    /// The counter's bytes in the in-progress state, if stored.
    pub post_counter: Option<Vec<u8>>,
}

impl Ibc {
    /// Decodes eight little-endian bytes.
    fn decode_counter(v: &Vec<u8>) -> (r: Option<u64>)
        ensures
            r == counter_of(v@),
    {
        if v.len() != 8 {
            return None;
        }
        let mut acc: u64 = 0;
        let mut i: usize = 8;
        proof {
            assert(v@.skip(8) =~= Seq::<u8>::empty());
            assert((0u64 as u128) < (1u128 << ((8 * (8 - 8)) as u128))) by (bit_vector);
        }
        while i > 0
            invariant
                0 <= i <= 8,
                v@.len() == 8,
                acc == le_val(v@.skip(i as int)),
                (acc as u128) < (1u128 << ((8 * (8 - i)) as u128)),
            decreases i,
        {
            proof {
                assert(v@.skip(i - 1)[0] == v@[i - 1]);
                assert(v@.skip(i - 1).skip(1) =~= v@.skip(i as int));
            }
            let d = v[i - 1];
            proof {
                assert((acc as u128) * 256 + (d as u128) < (1u128 << ((8 * (8 - (i - 1)))
                    as u128)) && acc <= 0xff_ffff_ffff_ffffu64) by (bit_vector)
                    requires
                        (acc as u128) < (1u128 << ((8 * (8 - i)) as u128)),
                        1 <= i && i <= 8,
                ;
            }
            acc = acc * 256 + d as u64;
            i = i - 1;
        }
        proof {
            assert(v@.skip(0) =~= v@);
        }
        Some(acc)
    }

    /// The channel counter in the last committed state; absent or malformed
    /// bytes are a channel error.
    pub fn channel_counter_pre(&self) -> (r: Result<u64, Error>)
        ensures
            match r {
                Ok(n) => self.pre_counter matches Some(v) && counter_of(v@) == Some(n),
                Err(_) => match self.pre_counter {
                    Some(v) => counter_of(v@) is None,
                    None => true,
                },
            },
    {
        match &self.pre_counter {
            Some(v) => match Self::decode_counter(v) {
                Some(n) => Ok(n),
                None => Err(
                    Error::ChannelError {
                        error: "the stored channel counter is malformed".to_owned(),
                    },
                ),
            },
            None => Err(
                Error::ChannelError { error: "the channel counter is not stored".to_owned() },
            ),
        }
    }

    /// The channel counter in the in-progress state; counters start at zero,
    /// so an absent or malformed value reads as zero.
    pub fn channel_counter(&self) -> (r: u64)
        ensures
            r == spec_post_counter(self.post_counter),
    {
        match &self.post_counter {
            Some(v) => match Self::decode_counter(v) {
                Some(n) => n,
                None => 0,
            },
            None => 0,
        }
    }

    /// The counter rule of channel validation: a transaction touching the
    /// counter is valid exactly when the counter strictly grew.
    pub fn validate_channel_counter(&self) -> (r: Result<bool, Error>)
        ensures
            match r {
                Ok(b) => self.pre_counter matches Some(v) && counter_of(v@) is Some && b == (
                counter_of(v@).unwrap() < spec_post_counter(self.post_counter)),
                Err(_) => match self.pre_counter {
                    Some(v) => counter_of(v@) is None,
                    None => true,
                },
            },
    {
        let pre = match self.channel_counter_pre() {
            Ok(n) => n,
            Err(e) => {
                return Err(e);
            },
        };
        Ok(pre < self.channel_counter())
    }
}

} // verus!
