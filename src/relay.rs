//! The relay's forwarding rule, one direction at a time: every frame read
//! from one peer is written unmodified to the other, in the order read, until
//! a read or a write fails or the source closes.
use vstd::prelude::*;

verus! {

/// What a read on the source connection gave: a frame of bytes, or nothing
/// when the read failed or the connection was closed.
pub open spec fn read_view(read: Option<Vec<u8>>) -> Option<Seq<u8>> {
    match read {
        Some(v) => Some(v@),
        None => None,
    }
}

/// One step of a forwarding direction: while open, a non-empty frame is
/// passed on as it is; a failed read or an empty one (the source closed) ends
/// the direction, and a closed direction passes nothing on.
pub open spec fn forward_step(open: bool, read: Option<Seq<u8>>) -> (Option<Seq<u8>>, bool) {
    match read {
        Some(f) => if open && f.len() > 0 {
            (Some(f), true)
        } else {
            (None, false)
        },
        None => (None, false),
    }
}

/// The frames written to the destination over a run of reads.
pub open spec fn relay_run(open: bool, reads: Seq<Option<Seq<u8>>>) -> Seq<Seq<u8>>
    decreases reads.len(),
{
    if reads.len() == 0 {
        seq![]
    } else {
        let (w, o) = forward_step(open, reads[0]);
        let rest = relay_run(o, reads.drop_first());
        match w {
            Some(f) => seq![f] + rest,
            None => rest,
        }
    }
}

/// The frames of a run of reads up to the first failed or empty read.
pub open spec fn frames_before_close(reads: Seq<Option<Seq<u8>>>) -> Seq<Seq<u8>>
    decreases reads.len(),
{
    if reads.len() == 0 {
        seq![]
    } else {
        match reads[0] {
            Some(f) => if f.len() > 0 {
                seq![f] + frames_before_close(reads.drop_first())
            } else {
                seq![]
            },
            None => seq![],
        }
    }
}

/// What one peer writes, the other reads: over any run of reads, an open
/// forwarding direction writes exactly the frames read before the first
/// failure, in the same order, none dropped and none repeated; a closed one
/// writes nothing.
pub proof fn lemma_relay_preserves_frames(reads: Seq<Option<Seq<u8>>>)
    ensures
        relay_run(true, reads) == frames_before_close(reads),
        relay_run(false, reads) == Seq::<Seq<u8>>::empty(),
    decreases reads.len(),
{
    if reads.len() > 0 {
        lemma_relay_preserves_frames(reads.drop_first());
    } else {
        assert(relay_run(false, reads) =~= Seq::<Seq<u8>>::empty());
    }
}

/// One forwarding direction of the relay.
pub struct Forwarder {
    pub open: bool,
}

impl Forwarder {
    pub fn new() -> (f: Forwarder)
        ensures
            f.open,
    {
        Forwarder { open: true }
    }

    /// Takes in the result of one read on the source connection and returns
    /// the bytes to write to the destination, if any.
    pub fn on_read(&mut self, read: Option<Vec<u8>>) -> (w: Option<Vec<u8>>)
        ensures
            (read_view(w), final(self).open) == forward_step(old(self).open, read_view(read)),
    {
        match read {
            Some(frame) => {
                if self.open && frame.len() > 0 {
                    Some(frame)
                } else {
                    self.open = false;
                    None
                }
            },
            None => {
                self.open = false;
                None
            },
        }
    }

    /// A write to the destination failed: the direction ends.
    pub fn on_write_failed(&mut self)
        ensures
            !final(self).open,
    {
        self.open = false;
    }
}

} // verus!
