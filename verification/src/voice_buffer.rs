//! What is heard in a voice channel, gathered for each speaker until a pause.

use std::collections::HashMap;
use std::collections::HashSet;

use vstd::prelude::*;
use vstd::std_specs::hash::group_hash_axioms;
use vstd::std_specs::iter::IteratorSpec;
use vstd::string::StringExecFns;

use crate::number;
use crate::number::decimal_text;

verus! {

broadcast use group_hash_axioms;

/// Frames of silence that end an utterance: 25 of 20 ms, half a second.
pub const SILENCE_THRESHOLD: u32 = 25;

/// Frames of speech that an utterance has at least: 10 of 20 ms, a fifth of a second.
pub const MIN_SPEECH_FRAMES: u32 = 10;

/// What has been heard of one speaker.
pub struct UserBuffer {
    /// Samples, 48 kHz stereo.
    pub pcm: Vec<i16>,
    /// Frames of silence since the last speech.
    pub silence_count: u32,
    /// Frames of speech.
    pub speech_frames: u32,
}

/// The same as mathematical values.
pub ghost struct Buffered {
    pub pcm: Seq<i16>,
    pub silence: nat,
    pub speech: nat,
}

impl View for UserBuffer {
    type V = Buffered;

    open spec fn view(&self) -> Buffered {
        Buffered {
            pcm: self.pcm@,
            silence: self.silence_count as nat,
            speech: self.speech_frames as nat,
        }
    }
}

impl Default for UserBuffer {
    fn default() -> (r: UserBuffer)
        ensures
            r@ == Buffered::empty(),
    {
        UserBuffer { pcm: Vec::new(), silence_count: 0, speech_frames: 0 }
    }
}

impl Buffered {
    pub open spec fn empty() -> Buffered {
        Buffered { pcm: seq![], silence: 0, speech: 0 }
    }

    /// A frame came in, with sound in it or without.
    pub open spec fn frame(self, sound: Option<Seq<i16>>) -> Buffered {
        match sound {
            Some(pcm) => Buffered { pcm: self.pcm + pcm, silence: 0, speech: self.speech + 1 },
            None => self.silent(),
        }
    }

    /// A frame was silent, which counts once there has been speech.
    pub open spec fn silent(self) -> Buffered {
        if self.speech > 0 {
            Buffered { silence: self.silence + 1, ..self }
        } else {
            self
        }
    }

    /// Whether an utterance has ended that is long enough.
    pub open spec fn is_finished(self) -> bool {
        self.silence >= SILENCE_THRESHOLD && self.speech >= MIN_SPEECH_FRAMES
    }

    /// Whether an utterance has ended that is too short.
    pub open spec fn is_too_short(self) -> bool {
        self.silence >= SILENCE_THRESHOLD && self.speech < MIN_SPEECH_FRAMES
    }

    pub open spec fn fits(self) -> bool {
        self.silence <= u32::MAX && self.speech <= u32::MAX
    }
}

/// The buffer of a speaker, empty where there is none yet.
pub open spec fn buffer_of(buffers: Map<u32, Buffered>, ssrc: u32) -> Buffered {
    if buffers.contains_key(ssrc) {
        buffers[ssrc]
    } else {
        Buffered::empty()
    }
}

/// The buffers after the frames of those who are speaking.
pub open spec fn after_speech(
    buffers: Map<u32, Buffered>,
    speaking: Seq<(u32, Option<Seq<i16>>)>,
) -> Map<u32, Buffered>
    decreases speaking.len(),
{
    if speaking.len() == 0 {
        buffers
    } else {
        let (ssrc, sound) = speaking.last();
        let before = after_speech(buffers, speaking.drop_last());
        before.insert(ssrc, buffer_of(before, ssrc).frame(sound))
    }
}

/// The buffers after those who are silent; a speaker who was never heard gets none.
pub open spec fn after_silence(buffers: Map<u32, Buffered>, silent: Seq<u32>) -> Map<u32, Buffered>
    decreases silent.len(),
{
    if silent.len() == 0 {
        buffers
    } else {
        let ssrc = silent.last();
        let before = after_silence(buffers, silent.drop_last());
        if before.contains_key(ssrc) {
            before.insert(ssrc, before[ssrc].silent())
        } else {
            before
        }
    }
}

/// Whether every count of every buffer fits in its integer.
pub open spec fn all_fit(buffers: Map<u32, Buffered>) -> bool {
    forall|ssrc: u32| #[trigger] buffers.contains_key(ssrc) ==> buffers[ssrc].fits()
}

/// Whether no count passes its limit on the way through a tick.
pub open spec fn tick_fits(
    buffers: Map<u32, Buffered>,
    speaking: Seq<(u32, Option<Seq<i16>>)>,
    silent: Seq<u32>,
) -> bool {
    &&& forall|k: int|
        0 <= k <= speaking.len() ==> all_fit(#[trigger] after_speech(buffers, speaking.take(k)))
    &&& forall|k: int|
        0 <= k <= silent.len() ==> all_fit(
            #[trigger] after_silence(after_speech(buffers, speaking), silent.take(k)),
        )
}

/// The frames of a tick.
pub open spec fn frames(speaking: Seq<(u32, Option<Vec<i16>>)>) -> Seq<(u32, Option<Seq<i16>>)> {
    speaking.map_values(
        |f: (u32, Option<Vec<i16>>)|
            (
                f.0,
                match f.1 {
                    Some(pcm) => Some(pcm@),
                    None => None,
                },
            ),
    )
}

/// Whether an utterance of this speaker is handed on: it has ended, and none before it is
/// still being worked on.
pub open spec fn is_due(buffers: Map<u32, Buffered>, processing: Set<u32>, ssrc: u32) -> bool {
    buffers.contains_key(ssrc) && buffers[ssrc].is_finished() && !processing.contains(ssrc)
}

/// The buffers once the utterances that are due have been taken out, and those that are too
/// short have been skipped. What has ended while one before it is worked on stays.
pub open spec fn after_taking(buffers: Map<u32, Buffered>, processing: Set<u32>) -> Map<
    u32,
    Buffered,
> {
    Map::new(
        |ssrc: u32| buffers.contains_key(ssrc),
        |ssrc: u32|
            if is_due(buffers, processing, ssrc) || buffers[ssrc].is_too_short() {
                Buffered::empty()
            } else {
                buffers[ssrc]
            },
    )
}

/// Whether `taken` holds each utterance that is due, once and in any order, and nothing else.
pub open spec fn takes_due(
    buffers: Map<u32, Buffered>,
    processing: Set<u32>,
    taken: Seq<(u32, Vec<i16>)>,
) -> bool {
    &&& forall|i: int|
        0 <= i < taken.len() ==> is_due(buffers, processing, (#[trigger] taken[i]).0)
            && taken[i].1@ == buffers[taken[i].0].pcm
    &&& forall|i: int, j: int|
        0 <= i < j < taken.len() ==> (#[trigger] taken[i]).0 != (#[trigger] taken[j]).0
    &&& forall|ssrc: u32| #[trigger]
        is_due(buffers, processing, ssrc) ==> exists|i: int|
            0 <= i < taken.len() && (#[trigger] taken[i]).0 == ssrc
}

/// What the handlers of a voice channel share.
pub struct VoiceShared {
    pub memory_log_path: String,
    /// The voice that answers are spoken with.
    pub speaker_id: u32,
    /// Whose a sound source is.
    pub ssrc_map: HashMap<u32, u64>,
    /// What has been heard, by sound source.
    pub buffers: HashMap<u32, UserBuffer>,
    /// The sound sources of which an utterance is being worked on.
    pub processing: HashSet<u32>,
}

impl VoiceShared {
    /// Where exchanges are logged, and the voice that answers are spoken with.
    pub open spec fn settings(&self) -> (Seq<char>, u32) {
        (self.memory_log_path@, self.speaker_id)
    }

    /// The user that a sound source is known to belong to.
    pub open spec fn users(&self) -> Map<u32, u64> {
        self.ssrc_map@
    }

    /// What has been heard, by sound source.
    pub open spec fn buffered(&self) -> Map<u32, Buffered> {
        self.buffers@.map_values(|b: UserBuffer| b@)
    }

    /// The sound sources of which an utterance is being worked on.
    pub open spec fn busy(&self) -> Set<u32> {
        self.processing@
    }

    /// A channel in which nothing was heard yet.
    pub fn new(memory_log_path: String, speaker_id: u32) -> (r: VoiceShared)
        ensures
            r.settings() == (memory_log_path@, speaker_id),
            r.users() == Map::<u32, u64>::empty(),
            r.buffered() == Map::<u32, Buffered>::empty(),
            r.busy() == Set::<u32>::empty(),
    {
        let r = VoiceShared {
            memory_log_path,
            speaker_id,
            ssrc_map: HashMap::new(),
            buffers: HashMap::new(),
            processing: HashSet::new(),
        };
        assert(r.buffered() =~= Map::<u32, Buffered>::empty());
        r
    }

    /// Notes whose a sound source is, where that was said.
    pub fn note_speaker(&mut self, ssrc: u32, user_id: Option<u64>)
        ensures
            final(self).users() == match user_id {
                Some(user) => old(self).users().insert(ssrc, user),
                None => old(self).users(),
            },
            final(self).buffered() == old(self).buffered(),
            final(self).busy() == old(self).busy(),
            final(self).settings() == old(self).settings(),
    {
        match user_id {
            Some(user) => {
                self.ssrc_map.insert(ssrc, user);
            },
            None => {},
        }
    }

    /// Work on an utterance of this sound source begins.
    pub fn begin(&mut self, ssrc: u32)
        ensures
            final(self).busy() == old(self).busy().insert(ssrc),
            final(self).buffered() == old(self).buffered(),
            final(self).users() == old(self).users(),
            final(self).settings() == old(self).settings(),
    {
        self.processing.insert(ssrc);
    }

    /// Work on an utterance of this sound source has ended.
    pub fn finish(&mut self, ssrc: u32)
        ensures
            final(self).busy() == old(self).busy().remove(ssrc),
            final(self).buffered() == old(self).buffered(),
            final(self).users() == old(self).users(),
            final(self).settings() == old(self).settings(),
    {
        self.processing.remove(&ssrc);
    }

    /// How a user is called: by their number, or by the sound source while it is not known
    /// whose it is.
    pub fn user_label(&self, ssrc: u32) -> (r: String)
        ensures
            r@ == label_of(self.users(), ssrc),
    {
        match self.ssrc_map.get(&ssrc) {
            Some(user) => decimal_text(*user),
            None => {
                let mut s = String::from_str("ssrc_");
                s.append(decimal_text(ssrc as u64).as_str());
                s
            },
        }
    }

    /// Takes in a frame of a speaker, unless a count would pass its limit.
    fn hear(&mut self, ssrc: u32, sound: &Option<Vec<i16>>) -> (r: bool)
        ensures
            ({
                let next = buffer_of(old(self).buffered(), ssrc).frame(
                    match *sound {
                        Some(pcm) => Some(pcm@),
                        None => None,
                    },
                );
                &&& r == next.fits()
                &&& r ==> final(self).buffered() == old(self).buffered().insert(ssrc, next)
            }),
            final(self).users() == old(self).users(),
            final(self).busy() == old(self).busy(),
            final(self).settings() == old(self).settings(),
    {
        let ghost before = self.buffered();
        let mut buf = match self.buffers.remove(&ssrc) {
            Some(b) => b,
            None => UserBuffer::default(),
        };
        assert(buf@ == buffer_of(before, ssrc));
        match sound {
            Some(pcm) => {
                if buf.speech_frames == u32::MAX {
                    return false;
                }
                buf.pcm.extend_from_slice(pcm.as_slice());
                assert(buf.pcm@ =~= buffer_of(before, ssrc).pcm + pcm@);
                buf.silence_count = 0;
                buf.speech_frames += 1;
            },
            None => {
                if buf.speech_frames > 0 {
                    if buf.silence_count == u32::MAX {
                        return false;
                    }
                    buf.silence_count += 1;
                }
            },
        }
        let ghost next = buf@;
        self.buffers.insert(ssrc, buf);
        assert(self.buffered() =~= before.insert(ssrc, next));
        true
    }

    /// Takes in a silent frame of a speaker, unless a count would pass its limit.
    fn hear_nothing(&mut self, ssrc: u32) -> (r: bool)
        ensures
            ({
                let before = old(self).buffered();
                &&& r == (before.contains_key(ssrc) ==> before[ssrc].silent().fits())
                &&& r ==> final(self).buffered() == if before.contains_key(ssrc) {
                    before.insert(ssrc, before[ssrc].silent())
                } else {
                    before
                }
            }),
            final(self).users() == old(self).users(),
            final(self).busy() == old(self).busy(),
            final(self).settings() == old(self).settings(),
    {
        let ghost before = self.buffered();
        match self.buffers.remove(&ssrc) {
            Some(b) => {
                let mut buf = b;
                assert(buf@ == before[ssrc]);
                if buf.speech_frames > 0 {
                    if buf.silence_count == u32::MAX {
                        return false;
                    }
                    buf.silence_count += 1;
                }
                let ghost next = buf@;
                self.buffers.insert(ssrc, buf);
                assert(self.buffered() =~= before.insert(ssrc, next));
            },
            None => {
                assert(self.buffered() =~= before);
            },
        }
        true
    }

    /// The sound sources that have a buffer.
    fn sources(&self) -> (r: Vec<u32>)
        ensures
            r@.no_duplicates(),
            forall|ssrc: u32| #[trigger] self.buffered().contains_key(ssrc) <==> r@.contains(ssrc),
    {
        let mut r: Vec<u32> = Vec::new();
        let ghost all = self.buffers.keys().remaining().unref();
        for ssrc in it: self.buffers.keys()
            invariant
                all == it.seq().unref(),
                r@ =~= all.take(it.index()),
                all.to_set() == self.buffers@.dom(),
                it.seq().no_duplicates(),
        {
            r.push(*ssrc);
        }
        assert(all.take(all.len() as int) =~= all);
        assert(r@.to_set() == self.buffers@.dom());
        assert forall|ssrc: u32| #[trigger] self.buffered().contains_key(ssrc) <==> r@.contains(
            ssrc,
        ) by {
            assert(r@.to_set().contains(ssrc) <==> r@.contains(ssrc));
        }
        r
    }

    /// Takes the utterance of a speaker out of the buffer where it is due, and drops it where
    /// it is too short.
    fn take(&mut self, ssrc: u32) -> (r: Option<Vec<i16>>)
        ensures
            match r {
                Some(pcm) => is_due(old(self).buffered(), old(self).busy(), ssrc) && pcm@
                    == old(self).buffered()[ssrc].pcm && final(self).buffered()
                    == old(self).buffered().insert(ssrc, Buffered::empty()),
                None => !is_due(old(self).buffered(), old(self).busy(), ssrc)
                    && final(self).buffered() == if old(self).buffered().contains_key(ssrc)
                    && old(self).buffered()[ssrc].is_too_short() {
                    old(self).buffered().insert(ssrc, Buffered::empty())
                } else {
                    old(self).buffered()
                },
            },
            final(self).users() == old(self).users(),
            final(self).busy() == old(self).busy(),
            final(self).settings() == old(self).settings(),
    {
        let ghost before = self.buffered();
        let (ended, long_enough) = match self.buffers.get(&ssrc) {
            Some(buf) => (
                buf.silence_count >= SILENCE_THRESHOLD,
                buf.speech_frames >= MIN_SPEECH_FRAMES,
            ),
            None => (false, false),
        };
        if !ended || (long_enough && self.processing.contains(&ssrc)) {
            return None;
        }
        match self.buffers.remove(&ssrc) {
            Some(buf) => {
                self.buffers.insert(ssrc, UserBuffer::default());
                assert(self.buffered() =~= before.insert(ssrc, Buffered::empty()));
                if long_enough {
                    Some(buf.pcm)
                } else {
                    None
                }
            },
            None => None,
        }
    }

    /// Takes in what came in over 20 ms, hands on the utterances that have ended, and skips
    /// those that were too short. The order in which they come is open. Nothing comes back where a count would pass the
    /// limit of its integer.
    pub fn tick(&mut self, speaking: &Vec<(u32, Option<Vec<i16>>)>, silent: &Vec<u32>) -> (r: Option<
        Vec<(u32, Vec<i16>)>,
    >)
        ensures
            r is Some <==> tick_fits(old(self).buffered(), frames(speaking@), silent@),
            ({
                let heard = after_silence(
                    after_speech(old(self).buffered(), frames(speaking@)),
                    silent@,
                );
                match r {
                    Some(taken) => takes_due(heard, old(self).busy(), taken@)
                        && final(self).buffered() == after_taking(heard, old(self).busy()),
                    None => true,
                }
            }),
            final(self).users() == old(self).users(),
            final(self).busy() == old(self).busy(),
            final(self).settings() == old(self).settings(),
    {
        let ghost start = self.buffered();
        let ghost fs = frames(speaking@);
        let mut i: usize = 0;
        assert(fs.take(0) =~= seq![]);
        while i < speaking.len()
            invariant
                i <= speaking@.len(),
                fs == frames(speaking@),
                start == old(self).buffered(),
                self.buffered() == after_speech(start, fs.take(i as int)),
                forall|k: int| 0 <= k <= i ==> all_fit(#[trigger] after_speech(start, fs.take(k))),
                self.users() == old(self).users(),
                self.busy() == old(self).busy(),
                self.settings() == old(self).settings(),
            decreases speaking@.len() - i,
        {
            let ghost here = self.buffered();
            let ghost n = i as int;
            assert(fs.take(n + 1).drop_last() =~= fs.take(n));
            assert(fs.take(n + 1).last() == fs[n]);
            let f = &speaking[i];
            let ok = self.hear(f.0, &f.1);
            proof {
                let next = after_speech(start, fs.take(n + 1));
                assert(next.contains_key(f.0));
                assert(next[f.0] == buffer_of(here, f.0).frame(fs[n].1));
                if !ok {
                    assert(!all_fit(next));
                    assert(!tick_fits(start, fs, silent@));
                }
            }
            if !ok {
                return None;
            }
            i += 1;
        }
        assert(fs.take(fs.len() as int) =~= fs);
        let ghost spoken = after_speech(start, fs);
        assert(silent@.take(0) =~= seq![]);
        i = 0;
        while i < silent.len()
            invariant
                i <= silent@.len(),
                fs == frames(speaking@),
                start == old(self).buffered(),
                spoken == after_speech(start, fs),
                self.buffered() == after_silence(spoken, silent@.take(i as int)),
                forall|k: int|
                    0 <= k <= fs.len() ==> all_fit(#[trigger] after_speech(start, fs.take(k))),
                forall|k: int|
                    0 <= k <= i ==> all_fit(#[trigger] after_silence(spoken, silent@.take(k))),
                self.users() == old(self).users(),
                self.busy() == old(self).busy(),
                self.settings() == old(self).settings(),
            decreases silent@.len() - i,
        {
            let ghost n = i as int;
            assert(silent@.take(n + 1).drop_last() =~= silent@.take(n));
            assert(silent@.take(n + 1).last() == silent@[n]);
            let ok = self.hear_nothing(silent[i]);
            proof {
                let next = after_silence(spoken, silent@.take(n + 1));
                if !ok {
                    assert(next.contains_key(silent@[n]));
                    assert(!all_fit(next));
                    assert(!tick_fits(start, fs, silent@));
                }
            }
            if !ok {
                return None;
            }
            i += 1;
        }
        assert(silent@.take(silent@.len() as int) =~= silent@);
        Some(self.take_due())
    }

    /// Takes out every utterance that is due, and drops those that are too short.
    fn take_due(&mut self) -> (r: Vec<(u32, Vec<i16>)>)
        ensures
            takes_due(old(self).buffered(), old(self).busy(), r@),
            final(self).buffered() == after_taking(old(self).buffered(), old(self).busy()),
            final(self).users() == old(self).users(),
            final(self).busy() == old(self).busy(),
            final(self).settings() == old(self).settings(),
    {
        let ghost heard = self.buffered();
        let ghost busy = self.busy();
        let sources = self.sources();
        let mut taken: Vec<(u32, Vec<i16>)> = Vec::new();
        let mut i: usize = 0;
        while i < sources.len()
            invariant
                i <= sources@.len(),
                sources@.no_duplicates(),
                forall|ssrc: u32| #[trigger] heard.contains_key(ssrc) <==> sources@.contains(ssrc),
                heard == old(self).buffered(),
                busy == old(self).busy(),
                self.buffered().dom() == heard.dom(),
                forall|k: int|
                    0 <= k < sources@.len() ==> self.buffered()[#[trigger] sources@[k]] == if k < i
                        && (is_due(heard, busy, sources@[k]) || heard[sources@[k]].is_too_short()) {
                        Buffered::empty()
                    } else {
                        heard[sources@[k]]
                    },
                forall|j: int|
                    0 <= j < taken@.len() ==> is_due(heard, busy, (#[trigger] taken@[j]).0)
                        && taken@[j].1@ == heard[taken@[j].0].pcm && (exists|k: int|
                        0 <= k < i && #[trigger] sources@[k] == taken@[j].0),
                forall|j: int, l: int|
                    0 <= j < l < taken@.len() ==> (#[trigger] taken@[j]).0 != (
                    #[trigger] taken@[l]).0,
                forall|k: int|
                    0 <= k < i && is_due(heard, busy, #[trigger] sources@[k]) ==> (exists|j: int|
                        0 <= j < taken@.len() && (#[trigger] taken@[j]).0 == sources@[k]),
                self.users() == old(self).users(),
                self.busy() == busy,
                self.settings() == old(self).settings(),
            decreases sources@.len() - i,
        {
            let ssrc = sources[i];
            let ghost so_far = taken@;
            let ghost here = self.buffered();
            assert(sources@.contains(ssrc));
            assert(heard.contains_key(ssrc));
            match self.take(ssrc) {
                Some(pcm) => {
                    taken.push((ssrc, pcm));
                    proof {
                        assert(self.buffered().dom() =~= heard.dom());
                        assert(taken@[so_far.len() as int].0 == ssrc);
                        assert forall|k: int|
                            0 <= k < i + 1 && is_due(heard, busy, #[trigger] sources@[k]) implies (
                        exists|j: int|
                            0 <= j < taken@.len() && (#[trigger] taken@[j]).0 == sources@[k]) by {
                            if k < i {
                                let j = choose|j: int|
                                    0 <= j < so_far.len() && (#[trigger] so_far[j]).0
                                        == sources@[k];
                                assert(taken@[j] == so_far[j]);
                            }
                        }
                    }
                },
                None => {
                    assert(self.buffered().dom() =~= heard.dom());
                },
            }
            i += 1;
        }
        proof {
            assert forall|ssrc: u32| #[trigger] is_due(heard, busy, ssrc) implies exists|j: int|
                0 <= j < taken@.len() && (#[trigger] taken@[j]).0 == ssrc by {
                assert(heard.contains_key(ssrc));
                let k = choose|k: int| 0 <= k < sources@.len() && sources@[k] == ssrc;
                assert(sources@[k] == ssrc);
            }
            let want = after_taking(heard, busy);
            assert(self.buffered().dom() =~= want.dom());
            assert forall|ssrc: u32| #[trigger] want.contains_key(ssrc) implies self.buffered()[ssrc]
                == want[ssrc] by {
                assert(heard.contains_key(ssrc));
                let k = choose|k: int| 0 <= k < sources@.len() && sources@[k] == ssrc;
                assert(sources@[k] == ssrc);
            }
            assert(self.buffered() =~= want);
        }
        taken
    }
}

/// How a user is called.
pub open spec fn label_of(users: Map<u32, u64>, ssrc: u32) -> Seq<char> {
    if users.contains_key(ssrc) {
        number::decimal(users[ssrc] as nat)
    } else {
        "ssrc_"@ + number::decimal(ssrc as nat)
    }
}

/// The sound that frames hold of one speaker.
pub open spec fn sound_of(speaking: Seq<(u32, Option<Seq<i16>>)>, ssrc: u32) -> Seq<i16>
    decreases speaking.len(),
{
    if speaking.len() == 0 {
        seq![]
    } else {
        let before = sound_of(speaking.drop_last(), ssrc);
        match speaking.last() {
            (from, Some(pcm)) => if from == ssrc {
                before + pcm
            } else {
                before
            },
            _ => before,
        }
    }
}

/// No sound is lost but that of utterances that are too short: what a speaker says in a tick
/// is added behind what was there, and is then either handed on or kept.
pub proof fn law_no_sound_is_lost(
    buffers: Map<u32, Buffered>,
    speaking: Seq<(u32, Option<Seq<i16>>)>,
    silent: Seq<u32>,
    busy: Set<u32>,
    taken: Seq<(u32, Vec<i16>)>,
    ssrc: u32,
)
    requires
        takes_due(after_silence(after_speech(buffers, speaking), silent), busy, taken),
    ensures
        ({
            let heard = after_silence(after_speech(buffers, speaking), silent);
            let all = buffer_of(buffers, ssrc).pcm + sound_of(speaking, ssrc);
            if is_due(heard, busy, ssrc) {
                &&& exists|i: int|
                    0 <= i < taken.len() && (#[trigger] taken[i]).0 == ssrc && taken[i].1@ == all
                &&& after_taking(heard, busy)[ssrc] == Buffered::empty()
            } else if buffer_of(heard, ssrc).is_too_short() {
                &&& all == buffer_of(heard, ssrc).pcm
                &&& buffer_of(after_taking(heard, busy), ssrc) == Buffered::empty()
            } else {
                buffer_of(after_taking(heard, busy), ssrc).pcm == all
            }
        }),
{
    let spoken = after_speech(buffers, speaking);
    let heard = after_silence(spoken, silent);
    let all = buffer_of(buffers, ssrc).pcm + sound_of(speaking, ssrc);
    lemma_speech_is_added(buffers, speaking, ssrc);
    lemma_silence_adds_nothing(spoken, silent, ssrc);
    if is_due(heard, busy, ssrc) {
        let i = choose|i: int| 0 <= i < taken.len() && (#[trigger] taken[i]).0 == ssrc;
        assert(taken[i].1@ == all);
    }
}

proof fn lemma_speech_is_added(
    buffers: Map<u32, Buffered>,
    speaking: Seq<(u32, Option<Seq<i16>>)>,
    ssrc: u32,
)
    ensures
        buffer_of(after_speech(buffers, speaking), ssrc).pcm == buffer_of(buffers, ssrc).pcm
            + sound_of(speaking, ssrc),
    decreases speaking.len(),
{
    let start = buffer_of(buffers, ssrc).pcm;
    if speaking.len() == 0 {
        assert(start + sound_of(speaking, ssrc) =~= start);
    } else {
        let front = speaking.drop_last();
        lemma_speech_is_added(buffers, front, ssrc);
        match speaking.last() {
            (from, Some(pcm)) => {
                assert(start + (sound_of(front, ssrc) + pcm) =~= start + sound_of(front, ssrc)
                    + pcm);
            },
            _ => {},
        }
    }
}

proof fn lemma_silence_adds_nothing(buffers: Map<u32, Buffered>, silent: Seq<u32>, ssrc: u32)
    ensures
        buffer_of(after_silence(buffers, silent), ssrc).pcm == buffer_of(buffers, ssrc).pcm,
        after_silence(buffers, silent).dom() == buffers.dom(),
    decreases silent.len(),
{
    if silent.len() > 0 {
        lemma_silence_adds_nothing(buffers, silent.drop_last(), ssrc);
        assert(after_silence(buffers, silent).dom() =~= buffers.dom());
    }
}

/// While an utterance of a speaker is worked on, no other of theirs is handed on; and what
/// is handed on has enough frames of speech, and enough silence behind them.
pub proof fn law_only_finished_utterances_are_taken(
    buffers: Map<u32, Buffered>,
    busy: Set<u32>,
    taken: Seq<(u32, Vec<i16>)>,
)
    requires
        takes_due(buffers, busy, taken),
    ensures
        forall|i: int|
            0 <= i < taken.len() ==> !busy.contains((#[trigger] taken[i]).0)
                && buffers[taken[i].0].speech >= MIN_SPEECH_FRAMES
                && buffers[taken[i].0].silence >= SILENCE_THRESHOLD,
{
    assert forall|i: int| 0 <= i < taken.len() implies !busy.contains((#[trigger] taken[i]).0)
        && buffers[taken[i].0].speech >= MIN_SPEECH_FRAMES && buffers[taken[i].0].silence
        >= SILENCE_THRESHOLD by {
        assert(is_due(buffers, busy, taken[i].0));
    }
}

/// A buffer after `n` silent frames.
pub open spec fn after_pause(buffer: Buffered, n: nat) -> Buffered
    decreases n,
{
    if n == 0 {
        buffer
    } else {
        after_pause(buffer, (n - 1) as nat).silent()
    }
}

/// An utterance that is long enough ends with the frame that makes half a second of silence.
pub proof fn law_utterance_ends_with_the_pause(buffer: Buffered, n: nat)
    requires
        buffer.speech >= MIN_SPEECH_FRAMES,
        buffer.silence == 0,
    ensures
        after_pause(buffer, n).is_finished() <==> n >= SILENCE_THRESHOLD,
        after_pause(buffer, n).pcm == buffer.pcm,
{
    lemma_pause(buffer, n);
}

proof fn lemma_pause(buffer: Buffered, n: nat)
    requires
        buffer.speech > 0,
    ensures
        after_pause(buffer, n) == (Buffered { silence: buffer.silence + n, ..buffer }),
    decreases n,
{
    if n > 0 {
        lemma_pause(buffer, (n - 1) as nat);
    }
}

/// A label tells speakers apart: two sound sources have the same one only where they belong
/// to the same user, or are the same and it is not known whose.
pub proof fn law_labels_tell_speakers_apart(users: Map<u32, u64>, a: u32, b: u32)
    requires
        label_of(users, a) == label_of(users, b),
    ensures
        if users.contains_key(a) {
            users.contains_key(b) && users[a] == users[b]
        } else {
            !users.contains_key(b) && a == b
        },
{
    reveal_strlit("ssrc_");
    let la = label_of(users, a);
    let lb = label_of(users, b);
    number::lemma_decimal_value(users[a] as nat);
    number::lemma_decimal_value(users[b] as nat);
    number::lemma_decimal_value(a as nat);
    number::lemma_decimal_value(b as nat);
    number::lemma_decimal_digits(users[a] as nat);
    number::lemma_decimal_digits(users[b] as nat);
    if users.contains_key(a) {
        assert(number::is_digit(la[0]));
    } else {
        assert(la[0] == 's');
        assert(la.skip(5) =~= number::decimal(a as nat));
    }
    if users.contains_key(b) {
        assert(number::is_digit(lb[0]));
    } else {
        assert(lb[0] == 's');
        assert(lb.skip(5) =~= number::decimal(b as nat));
    }
}

/// What comes in over 20 ms, and the sound sources of which an utterance is worked on then.
pub ghost struct Tick {
    pub speaking: Seq<(u32, Option<Seq<i16>>)>,
    pub silent: Seq<u32>,
    pub busy: Set<u32>,
}

/// The buffers once a tick was heard, before anything is taken out.
pub open spec fn heard_in(buffers: Map<u32, Buffered>, tick: Tick) -> Map<u32, Buffered> {
    after_silence(after_speech(buffers, tick.speaking), tick.silent)
}

/// The buffers after some ticks.
pub open spec fn after_ticks(buffers: Map<u32, Buffered>, ticks: Seq<Tick>) -> Map<u32, Buffered>
    decreases ticks.len(),
{
    if ticks.len() == 0 {
        buffers
    } else {
        let tick = ticks.last();
        after_taking(heard_in(after_ticks(buffers, ticks.drop_last()), tick), tick.busy)
    }
}

/// How many frames with sound a tick holds of a speaker.
pub open spec fn sounds(speaking: Seq<(u32, Option<Seq<i16>>)>, ssrc: u32) -> nat
    decreases speaking.len(),
{
    if speaking.len() == 0 {
        0
    } else {
        let last = speaking.last();
        sounds(speaking.drop_last(), ssrc) + if last.0 == ssrc && last.1 is Some {
            1nat
        } else {
            0
        }
    }
}

/// How many frames with sound some ticks hold of a speaker.
pub open spec fn sounds_in(ticks: Seq<Tick>, ssrc: u32) -> nat
    decreases ticks.len(),
{
    if ticks.len() == 0 {
        0
    } else {
        sounds_in(ticks.drop_last(), ssrc) + sounds(ticks.last().speaking, ssrc)
    }
}

/// Whether a speaker is silent in a tick: there is no sound of them, but a frame.
pub open spec fn is_silent(tick: Tick, ssrc: u32) -> bool {
    &&& sounds(tick.speaking, ssrc) == 0
    &&& tick.silent.contains(ssrc) || exists|i: int|
        0 <= i < tick.speaking.len() && (#[trigger] tick.speaking[i]).0 == ssrc
}

/// Whether some ticks are an utterance of a speaker that is too short: fewer frames of speech
/// than it takes, and then half a second of silence at least.
pub open spec fn is_short_utterance(ticks: Seq<Tick>, ssrc: u32) -> bool {
    &&& sounds_in(ticks, ssrc) < MIN_SPEECH_FRAMES
    &&& ticks.len() >= SILENCE_THRESHOLD
    &&& forall|k: int|
        ticks.len() - SILENCE_THRESHOLD <= k < ticks.len() ==> is_silent(#[trigger] ticks[k], ssrc)
}

/// The buffers after some utterances.
pub open spec fn after_utterances(buffers: Map<u32, Buffered>, utterances: Seq<Seq<Tick>>) -> Map<
    u32,
    Buffered,
>
    decreases utterances.len(),
{
    if utterances.len() == 0 {
        buffers
    } else {
        after_ticks(after_utterances(buffers, utterances.drop_last()), utterances.last())
    }
}

/// Whether nothing of a speaker is handed on in any of some ticks.
pub open spec fn is_never_due(buffers: Map<u32, Buffered>, ticks: Seq<Tick>, ssrc: u32) -> bool {
    forall|k: int|
        0 <= k < ticks.len() ==> !is_due(
            heard_in(after_ticks(buffers, ticks.take(k)), #[trigger] ticks[k]),
            ticks[k].busy,
            ssrc,
        )
}

/// Utterances that are too short are never handed on, however many follow each other, and
/// nothing is left behind them.
pub proof fn law_short_utterances_are_skipped(
    buffers: Map<u32, Buffered>,
    utterances: Seq<Seq<Tick>>,
    ssrc: u32,
)
    requires
        buffer_of(buffers, ssrc) == Buffered::empty(),
        forall|u: int|
            0 <= u < utterances.len() ==> is_short_utterance(#[trigger] utterances[u], ssrc),
    ensures
        forall|u: int|
            0 <= u < utterances.len() ==> is_never_due(
                after_utterances(buffers, utterances.take(u)),
                #[trigger] utterances[u],
                ssrc,
            ),
        buffer_of(after_utterances(buffers, utterances), ssrc) == Buffered::empty(),
    decreases utterances.len(),
{
    if utterances.len() > 0 {
        let front = utterances.drop_last();
        let last = utterances.last();
        assert forall|u: int| 0 <= u < front.len() implies is_short_utterance(
            #[trigger] front[u],
            ssrc,
        ) by {
            assert(front[u] == utterances[u]);
        }
        law_short_utterances_are_skipped(buffers, front, ssrc);
        assert(is_short_utterance(utterances[utterances.len() - 1], ssrc));
        lemma_short_utterance(after_utterances(buffers, front), last, ssrc);
        assert forall|u: int| 0 <= u < utterances.len() implies is_never_due(
            after_utterances(buffers, utterances.take(u)),
            #[trigger] utterances[u],
            ssrc,
        ) by {
            if u < front.len() {
                assert(front.take(u) =~= utterances.take(u));
                assert(front[u] == utterances[u]);
            } else {
                assert(utterances.take(u) =~= front);
            }
        }
    }
}

/// Whether a buffer without speech is empty, as every buffer is that began empty.
spec fn is_sound(b: Buffered) -> bool {
    b.speech == 0 ==> b == Buffered::empty()
}

/// What one tick makes of the buffer of one speaker.
proof fn lemma_heard(buffers: Map<u32, Buffered>, tick: Tick, ssrc: u32)
    requires
        is_sound(buffer_of(buffers, ssrc)),
    ensures
        ({
            let b = buffer_of(buffers, ssrc);
            let h = buffer_of(heard_in(buffers, tick), ssrc);
            &&& is_sound(h)
            &&& h.speech == b.speech + sounds(tick.speaking, ssrc)
            &&& is_silent(tick, ssrc) && b.speech > 0 ==> h.silence > b.silence
        }),
{
    lemma_heard_speech(buffers, tick.speaking, ssrc);
    lemma_heard_silence(after_speech(buffers, tick.speaking), tick.silent, ssrc);
}

proof fn lemma_heard_speech(
    buffers: Map<u32, Buffered>,
    speaking: Seq<(u32, Option<Seq<i16>>)>,
    ssrc: u32,
)
    requires
        is_sound(buffer_of(buffers, ssrc)),
    ensures
        ({
            let b = buffer_of(buffers, ssrc);
            let h = buffer_of(after_speech(buffers, speaking), ssrc);
            &&& is_sound(h)
            &&& h.speech == b.speech + sounds(speaking, ssrc)
            &&& sounds(speaking, ssrc) == 0 ==> h.silence >= b.silence
            &&& sounds(speaking, ssrc) == 0 && b.speech > 0 && (exists|i: int|
                0 <= i < speaking.len() && (#[trigger] speaking[i]).0 == ssrc) ==> h.silence
                > b.silence
        }),
    decreases speaking.len(),
{
    if speaking.len() > 0 {
        let front = speaking.drop_last();
        lemma_heard_speech(buffers, front, ssrc);
        let b = buffer_of(buffers, ssrc);
        if sounds(speaking, ssrc) == 0 && b.speech > 0 && speaking.last().0 != ssrc && (exists|
            i: int,
        |
            0 <= i < speaking.len() && (#[trigger] speaking[i]).0 == ssrc) {
            let i = choose|i: int|
                0 <= i < speaking.len() && (#[trigger] speaking[i]).0 == ssrc;
            assert(front[i].0 == ssrc);
        }
    }
}

proof fn lemma_heard_silence(buffers: Map<u32, Buffered>, silent: Seq<u32>, ssrc: u32)
    requires
        is_sound(buffer_of(buffers, ssrc)),
    ensures
        ({
            let b = buffer_of(buffers, ssrc);
            let h = buffer_of(after_silence(buffers, silent), ssrc);
            &&& is_sound(h)
            &&& h.speech == b.speech
            &&& h.silence >= b.silence
            &&& b.speech > 0 && silent.contains(ssrc) ==> h.silence > b.silence
        }),
    decreases silent.len(),
{
    if silent.len() > 0 {
        let front = silent.drop_last();
        lemma_heard_silence(buffers, front, ssrc);
        if silent.contains(ssrc) && silent.last() != ssrc {
            let i = choose|i: int| 0 <= i < silent.len() && silent[i] == ssrc;
            assert(front[i] == ssrc);
        }
    }
}

/// An utterance that is too short is not handed on, and leaves nothing.
proof fn lemma_short_utterance(buffers: Map<u32, Buffered>, ticks: Seq<Tick>, ssrc: u32)
    requires
        buffer_of(buffers, ssrc) == Buffered::empty(),
        is_short_utterance(ticks, ssrc),
    ensures
        is_never_due(buffers, ticks, ssrc),
        buffer_of(after_ticks(buffers, ticks), ssrc) == Buffered::empty(),
{
    assert forall|k: int| 0 <= k < ticks.len() implies !is_due(
        heard_in(after_ticks(buffers, ticks.take(k)), #[trigger] ticks[k]),
        ticks[k].busy,
        ssrc,
    ) by {
        lemma_little_speech(buffers, ticks, k, ssrc);
        lemma_sounds_grow(ticks, k + 1, ssrc);
        assert(ticks.take(k + 1).drop_last() =~= ticks.take(k));
        lemma_heard(after_ticks(buffers, ticks.take(k)), ticks[k], ssrc);
    }
    lemma_pause_clears(buffers, ticks, ticks.len() as int, ssrc);
    assert(ticks.take(ticks.len() as int) =~= ticks);
}

proof fn lemma_sounds_grow(ticks: Seq<Tick>, k: int, ssrc: u32)
    requires
        0 <= k <= ticks.len(),
    ensures
        sounds_in(ticks.take(k), ssrc) <= sounds_in(ticks, ssrc),
    decreases ticks.len() - k,
{
    if k < ticks.len() {
        lemma_sounds_grow(ticks, k + 1, ssrc);
        assert(ticks.take(k + 1).drop_last() =~= ticks.take(k));
    } else {
        assert(ticks.take(k) =~= ticks);
    }
}

/// A buffer that began empty has no more speech than came in.
proof fn lemma_little_speech(buffers: Map<u32, Buffered>, ticks: Seq<Tick>, k: int, ssrc: u32)
    requires
        0 <= k <= ticks.len(),
        buffer_of(buffers, ssrc) == Buffered::empty(),
    ensures
        is_sound(buffer_of(after_ticks(buffers, ticks.take(k)), ssrc)),
        buffer_of(after_ticks(buffers, ticks.take(k)), ssrc).speech <= sounds_in(
            ticks.take(k),
            ssrc,
        ),
    decreases k,
{
    if k > 0 {
        lemma_little_speech(buffers, ticks, k - 1, ssrc);
        assert(ticks.take(k).drop_last() =~= ticks.take(k - 1));
        lemma_heard(after_ticks(buffers, ticks.take(k - 1)), ticks[k - 1], ssrc);
    }
}

/// While the pause goes on, the silence grows until the buffer is cleared.
proof fn lemma_pause_clears(buffers: Map<u32, Buffered>, ticks: Seq<Tick>, k: int, ssrc: u32)
    requires
        buffer_of(buffers, ssrc) == Buffered::empty(),
        is_short_utterance(ticks, ssrc),
        ticks.len() - SILENCE_THRESHOLD <= k <= ticks.len(),
    ensures
        ({
            let b = buffer_of(after_ticks(buffers, ticks.take(k)), ssrc);
            b == Buffered::empty() || k - (ticks.len() - SILENCE_THRESHOLD) <= b.silence
                < SILENCE_THRESHOLD
        }),
    decreases k,
{
    lemma_little_speech(buffers, ticks, k, ssrc);
    if k > 0 {
        let before = after_ticks(buffers, ticks.take(k - 1));
        lemma_little_speech(buffers, ticks, k - 1, ssrc);
        lemma_sounds_grow(ticks, k, ssrc);
        assert(ticks.take(k).drop_last() =~= ticks.take(k - 1));
        lemma_heard(before, ticks[k - 1], ssrc);
        if k > ticks.len() - SILENCE_THRESHOLD {
            lemma_pause_clears(buffers, ticks, k - 1, ssrc);
            assert(is_silent(ticks[k - 1], ssrc));
        }
    }
}

/// What a frame does to a buffer. One with sound adds it behind what was there, counts as
/// speech, and ends the silence, however long it was; one without counts as silence once
/// there has been speech, and does nothing else.
pub proof fn law_frame(b: Buffered, pcm: Seq<i16>)
    ensures
        b.frame(Some(pcm)).pcm == b.pcm + pcm,
        b.frame(Some(pcm)).speech == b.speech + 1,
        b.frame(Some(pcm)).silence == 0,
        b.frame(None).pcm == b.pcm,
        b.frame(None).speech == b.speech,
        b.frame(None).silence == b.silence + if b.speech > 0 {
            1int
        } else {
            0
        },
        b.silent() == b.frame(None),
{
}

/// What becomes of a buffer behind a tick: it is handed on where half a second of silence, 25
/// frames, follows speech of at least 10 frames and no utterance of the speaker is worked on;
/// it is emptied then, and where the speech before such a silence was shorter; otherwise it
/// stays as it is.
pub proof fn law_when_an_utterance_is_due(buffers: Map<u32, Buffered>, busy: Set<u32>, ssrc: u32)
    requires
        buffers.contains_key(ssrc),
    ensures
        ({
            let b = buffers[ssrc];
            &&& is_due(buffers, busy, ssrc) <==> b.silence >= 25 && b.speech >= 10
                && !busy.contains(ssrc)
            &&& after_taking(buffers, busy).contains_key(ssrc)
            &&& b.silence >= 25 && (b.speech < 10 || !busy.contains(ssrc)) ==> after_taking(
                buffers,
                busy,
            )[ssrc] == (Buffered { pcm: seq![], silence: 0, speech: 0 })
            &&& b.silence < 25 || (b.speech >= 10 && busy.contains(ssrc)) ==> after_taking(
                buffers,
                busy,
            )[ssrc] == b
        }),
        forall|other: u32|
            after_taking(buffers, busy).contains_key(other) <==> buffers.contains_key(other),
{
}

/// The frames of one speaker among those that came in.
pub open spec fn frames_from(speaking: Seq<(u32, Option<Seq<i16>>)>, ssrc: u32) -> Seq<
    Option<Seq<i16>>,
> {
    speaking.filter(|f: (u32, Option<Seq<i16>>)| f.0 == ssrc).map_values(
        |f: (u32, Option<Seq<i16>>)| f.1,
    )
}

/// The frames of one speaker among those who were silent.
pub open spec fn silence_from(silent: Seq<u32>, ssrc: u32) -> Seq<Option<Seq<i16>>> {
    silent.filter(|s: u32| s == ssrc).map_values(|s: u32| None::<Seq<i16>>)
}

/// The frames of one speaker in a tick, in the order in which they are heard.
pub open spec fn frames_of(tick: Tick, ssrc: u32) -> Seq<Option<Seq<i16>>> {
    frames_from(tick.speaking, ssrc) + silence_from(tick.silent, ssrc)
}

/// The frames of one speaker in some ticks.
pub open spec fn history(ticks: Seq<Tick>, ssrc: u32) -> Seq<Option<Seq<i16>>> {
    ticks.map_values(|t: Tick| frames_of(t, ssrc)).flatten_alt()
}

/// The sound in some frames.
pub open spec fn sound_in(frames: Seq<Option<Seq<i16>>>) -> Seq<i16> {
    frames.map_values(
        |f: Option<Seq<i16>>|
            match f {
                Some(pcm) => pcm,
                None => seq![],
            },
    ).flatten_alt()
}

/// How many of some frames hold sound.
pub open spec fn sound_frames(frames: Seq<Option<Seq<i16>>>) -> nat {
    frames.filter(|f: Option<Seq<i16>>| f is Some).len()
}

/// Whether the last `n` frames hold no sound.
pub open spec fn ends_silent(frames: Seq<Option<Seq<i16>>>, n: int) -> bool {
    n <= frames.len() && forall|k: int|
        frames.len() - n <= k < frames.len() ==> (#[trigger] frames[k]) is None
}

/// Whether a buffer is what some frames come to: all their sound, as much speech as they
/// have frames with sound, and as much silence as they have frames behind the last of those.
pub open spec fn is_buffer_of(b: Buffered, frames: Seq<Option<Seq<i16>>>) -> bool {
    &&& b.pcm == sound_in(frames)
    &&& b.speech == sound_frames(frames)
    &&& b.speech == 0 ==> b.silence == 0
    &&& b.speech > 0 ==> ends_silent(frames, b.silence as int) && b.silence < frames.len()
        && frames[frames.len() - b.silence - 1] is Some
}

/// The frames of a speaker since their buffer was last emptied.
pub open spec fn since_emptied(buffers: Map<u32, Buffered>, ticks: Seq<Tick>, ssrc: u32) -> Seq<
    Option<Seq<i16>>,
>
    decreases ticks.len(),
{
    if ticks.len() == 0 {
        seq![]
    } else {
        let front = ticks.drop_last();
        let heard = heard_in(after_ticks(buffers, front), ticks.last());
        let b = buffer_of(heard, ssrc);
        if b.silence >= 25 && (b.speech < 10 || !ticks.last().busy.contains(ssrc)) {
            seq![]
        } else {
            since_emptied(buffers, front, ssrc) + frames_of(ticks.last(), ssrc)
        }
    }
}

/// A buffer is what the frames of its speaker come to that were heard since it was last
/// emptied, over any ticks; and those are the last frames of the speaker.
pub proof fn law_buffer_is_what_was_heard(
    buffers: Map<u32, Buffered>,
    ticks: Seq<Tick>,
    ssrc: u32,
)
    requires
        buffer_of(buffers, ssrc) == Buffered::empty(),
    ensures
        is_buffer_of(
            buffer_of(after_ticks(buffers, ticks), ssrc),
            since_emptied(buffers, ticks, ssrc),
        ),
        since_emptied(buffers, ticks, ssrc).is_suffix_of(history(ticks, ssrc)),
    decreases ticks.len(),
{
    let frames = since_emptied(buffers, ticks, ssrc);
    if ticks.len() == 0 {
        lemma_no_frames();
        let h = history(ticks, ssrc);
        assert(h.skip(h.len() as int) =~= frames);
    } else {
        let front = ticks.drop_last();
        let tick = ticks.last();
        law_buffer_is_what_was_heard(buffers, front, ssrc);
        let before = after_ticks(buffers, front);
        let old_frames = since_emptied(buffers, front, ssrc);
        lemma_heard_frames(before, tick, ssrc, old_frames);
        lemma_no_frames();
        let heard = heard_in(before, tick);
        let h = history(ticks, ssrc);
        let f = |t: Tick| frames_of(t, ssrc);
        assert(ticks.map_values(f).drop_last() =~= front.map_values(f));
        assert(h == history(front, ssrc) + frames_of(tick, ssrc));
        let grown = old_frames + frames_of(tick, ssrc);
        assert(grown.is_suffix_of(h)) by {
            let g = history(front, ssrc);
            assert(h.skip(h.len() - grown.len()) =~= grown) by {
                assert(g.skip(g.len() - old_frames.len()) == old_frames);
                assert forall|i: int| 0 <= i < grown.len() implies h[h.len() - grown.len() + i]
                    == grown[i] by {
                    if i < old_frames.len() {
                        assert(g.skip(g.len() - old_frames.len())[i] == old_frames[i]);
                    }
                }
            }
        }
        if heard.contains_key(ssrc) {
            law_when_an_utterance_is_due(heard, tick.busy, ssrc);
        }
        if frames.len() == 0 {
            assert(h.skip(h.len() as int) =~= frames);
        }
    }
}

proof fn lemma_no_frames()
    ensures
        is_buffer_of(Buffered::empty(), seq![]),
{
    reveal(Seq::filter);
    let none: Seq<Option<Seq<i16>>> = seq![];
    assert(sound_in(none) =~= seq![]) by {
        assert(none.map_values(
            |f: Option<Seq<i16>>|
                match f {
                    Some(pcm) => pcm,
                    None => seq![],
                },
        ) =~= seq![]);
    }
}

/// One more frame.
proof fn lemma_one_more_frame(b: Buffered, frames: Seq<Option<Seq<i16>>>, f: Option<Seq<i16>>)
    requires
        is_buffer_of(b, frames),
    ensures
        is_buffer_of(b.frame(f), frames.push(f)),
{
    reveal(Seq::filter);
    let all = frames.push(f);
    let value = |f: Option<Seq<i16>>|
        match f {
            Some(pcm) => pcm,
            None => Seq::<i16>::empty(),
        };
    assert(all.drop_last() =~= frames);
    assert(all.map_values(value).drop_last() =~= frames.map_values(value));
    assert(sound_in(all) == sound_in(frames) + value(f));
    assert(sound_in(frames) + Seq::<i16>::empty() =~= sound_in(frames));
    let n = b.frame(f);
    if f is None && b.speech > 0 {
        assert(all[all.len() - n.silence - 1] == frames[frames.len() - b.silence - 1]);
        assert forall|k: int| all.len() - n.silence <= k < all.len() implies (
        #[trigger] all[k]) is None by {
            if k < frames.len() {
                assert(all[k] == frames[k]);
            }
        }
    }
}

proof fn lemma_heard_frames(
    buffers: Map<u32, Buffered>,
    tick: Tick,
    ssrc: u32,
    frames: Seq<Option<Seq<i16>>>,
)
    requires
        is_buffer_of(buffer_of(buffers, ssrc), frames),
    ensures
        is_buffer_of(
            buffer_of(heard_in(buffers, tick), ssrc),
            frames + frames_of(tick, ssrc),
        ),
{
    let spoken = frames_from(tick.speaking, ssrc);
    let silent = silence_from(tick.silent, ssrc);
    lemma_spoken_frames(buffers, tick.speaking, ssrc, frames);
    lemma_silent_frames(
        after_speech(buffers, tick.speaking),
        tick.silent,
        ssrc,
        frames + spoken,
    );
    assert(frames + (spoken + silent) =~= frames + spoken + silent);
}

proof fn lemma_spoken_frames(
    buffers: Map<u32, Buffered>,
    speaking: Seq<(u32, Option<Seq<i16>>)>,
    ssrc: u32,
    frames: Seq<Option<Seq<i16>>>,
)
    requires
        is_buffer_of(buffer_of(buffers, ssrc), frames),
    ensures
        is_buffer_of(
            buffer_of(after_speech(buffers, speaking), ssrc),
            frames + frames_from(speaking, ssrc),
        ),
    decreases speaking.len(),
{
    reveal(Seq::filter);
    let all = frames + frames_from(speaking, ssrc);
    if speaking.len() == 0 {
        assert(all =~= frames);
    } else {
        let front = speaking.drop_last();
        let f = speaking.last();
        lemma_spoken_frames(buffers, front, ssrc, frames);
        let before = frames + frames_from(front, ssrc);
        if f.0 == ssrc {
            assert(all =~= before.push(f.1));
            lemma_one_more_frame(
                buffer_of(after_speech(buffers, front), ssrc),
                before,
                f.1,
            );
        } else {
            assert(all =~= before);
        }
    }
}

proof fn lemma_silent_frames(
    buffers: Map<u32, Buffered>,
    silent: Seq<u32>,
    ssrc: u32,
    frames: Seq<Option<Seq<i16>>>,
)
    requires
        is_buffer_of(buffer_of(buffers, ssrc), frames),
    ensures
        is_buffer_of(
            buffer_of(after_silence(buffers, silent), ssrc),
            frames + silence_from(silent, ssrc),
        ),
    decreases silent.len(),
{
    reveal(Seq::filter);
    let all = frames + silence_from(silent, ssrc);
    if silent.len() == 0 {
        assert(all =~= frames);
    } else {
        let front = silent.drop_last();
        lemma_silent_frames(buffers, front, ssrc, frames);
        let before = frames + silence_from(front, ssrc);
        let b = buffer_of(after_silence(buffers, front), ssrc);
        if silent.last() == ssrc {
            assert(all =~= before.push(None));
            lemma_one_more_frame(b, before, None);
            if !after_silence(buffers, front).contains_key(ssrc) {
                assert(b.frame(None) == b);
            }
        } else {
            assert(all =~= before);
        }
    }
}

/// Over any ticks, an utterance is due only if the last 25 frames of its speaker all held no
/// sound, and at least 10 before them did.
pub proof fn law_due_only_behind_half_a_second_of_silence(
    buffers: Map<u32, Buffered>,
    ticks: Seq<Tick>,
    tick: Tick,
    ssrc: u32,
)
    requires
        buffer_of(buffers, ssrc) == Buffered::empty(),
        is_due(heard_in(after_ticks(buffers, ticks), tick), tick.busy, ssrc),
    ensures
        ends_silent(history(ticks.push(tick), ssrc), 25),
        sound_frames(since_emptied(buffers, ticks, ssrc) + frames_of(tick, ssrc)) >= 10,
{
    law_buffer_is_what_was_heard(buffers, ticks, ssrc);
    let before = after_ticks(buffers, ticks);
    let frames = since_emptied(buffers, ticks, ssrc);
    lemma_heard_frames(before, tick, ssrc, frames);
    let heard = heard_in(before, tick);
    law_when_an_utterance_is_due(heard, tick.busy, ssrc);
    let b = heard[ssrc];
    let grown = frames + frames_of(tick, ssrc);
    assert(ends_silent(grown, b.silence as int));
    let f = |t: Tick| frames_of(t, ssrc);
    let h = history(ticks.push(tick), ssrc);
    let g = history(ticks, ssrc);
    assert(ticks.push(tick).map_values(f).drop_last() =~= ticks.map_values(f));
    assert(h == g + frames_of(tick, ssrc));
    assert forall|k: int| h.len() - 25 <= k < h.len() implies (#[trigger] h[k]) is None by {
        let j = k - (h.len() - grown.len());
        assert(grown[j] is None);
        if j < frames.len() {
            assert(g.skip(g.len() - frames.len())[j] == frames[j]);
        }
    }
}

/// An utterance is due as soon as it may be: where a speaker has said at least 10 frames since
/// their buffer was last emptied, the 25th frame of silence behind them makes it due, unless
/// one before it is worked on.
pub proof fn law_due_behind_half_a_second_of_silence(
    buffers: Map<u32, Buffered>,
    ticks: Seq<Tick>,
    tick: Tick,
    ssrc: u32,
)
    requires
        buffer_of(buffers, ssrc) == Buffered::empty(),
        !tick.busy.contains(ssrc),
        ({
            let frames = since_emptied(buffers, ticks, ssrc) + frames_of(tick, ssrc);
            sound_frames(frames) >= 10 && ends_silent(frames, 25)
        }),
    ensures
        is_due(heard_in(after_ticks(buffers, ticks), tick), tick.busy, ssrc),
{
    law_buffer_is_what_was_heard(buffers, ticks, ssrc);
    let before = after_ticks(buffers, ticks);
    let frames = since_emptied(buffers, ticks, ssrc);
    lemma_heard_frames(before, tick, ssrc, frames);
    let heard = heard_in(before, tick);
    let grown = frames + frames_of(tick, ssrc);
    let b = buffer_of(heard, ssrc);
    if b.silence < 25 {
        assert(grown[grown.len() - b.silence - 1] is None);
    }
    assert(heard.contains_key(ssrc));
    law_when_an_utterance_is_due(heard, tick.busy, ssrc);
}

/// What a speaker is called: by the number of the user, or by the sound source.
pub proof fn law_label(users: Map<u32, u64>, ssrc: u32)
    ensures
        users.contains_key(ssrc) ==> label_of(users, ssrc) == number::decimal(users[ssrc] as nat),
        !users.contains_key(ssrc) ==> label_of(users, ssrc) == "ssrc_"@ + number::decimal(
            ssrc as nat,
        ),
{
}

/// What is taken out in a tick: of every speaker whose utterance is due the whole of it, once,
/// and of no other.
pub proof fn law_what_is_taken(
    buffers: Map<u32, Buffered>,
    busy: Set<u32>,
    taken: Seq<(u32, Vec<i16>)>,
    ssrc: u32,
)
    requires
        takes_due(buffers, busy, taken),
    ensures
        (exists|i: int| 0 <= i < taken.len() && (#[trigger] taken[i]).0 == ssrc) <==> (
        buffers.contains_key(ssrc) && buffers[ssrc].silence >= 25 && buffers[ssrc].speech >= 10
            && !busy.contains(ssrc)),
        forall|i: int|
            0 <= i < taken.len() && (#[trigger] taken[i]).0 == ssrc ==> taken[i].1@
                == buffers[ssrc].pcm,
        forall|i: int, j: int|
            0 <= i < taken.len() && 0 <= j < taken.len() && (#[trigger] taken[i]).0 == (
            #[trigger] taken[j]).0 ==> i == j,
{
    if buffers.contains_key(ssrc) {
        law_when_an_utterance_is_due(buffers, busy, ssrc);
    }
    if exists|i: int| 0 <= i < taken.len() && (#[trigger] taken[i]).0 == ssrc {
        let i = choose|i: int| 0 <= i < taken.len() && (#[trigger] taken[i]).0 == ssrc;
        assert(is_due(buffers, busy, taken[i].0));
    }
    if is_due(buffers, busy, ssrc) {
        let i = choose|i: int| 0 <= i < taken.len() && (#[trigger] taken[i]).0 == ssrc;
        assert(taken[i].0 == ssrc);
    }
    assert forall|i: int, j: int|
        0 <= i < taken.len() && 0 <= j < taken.len() && (#[trigger] taken[i]).0 == (
        #[trigger] taken[j]).0 implies i == j by {
        if i < j {
            assert(taken[i].0 != taken[j].0);
        } else if j < i {
            assert(taken[j].0 != taken[i].0);
        }
    }
}

/// A tick is heard wherever there is room: no count can pass its limit before as many frames
/// came as it is away from it.
pub proof fn law_tick_is_heard_where_there_is_room(
    buffers: Map<u32, Buffered>,
    speaking: Seq<(u32, Option<Seq<i16>>)>,
    silent: Seq<u32>,
)
    requires
        speaking.len() + silent.len() <= u32::MAX,
        forall|ssrc: u32| #[trigger]
            buffers.contains_key(ssrc) ==> buffers[ssrc].silence + speaking.len() + silent.len()
                <= u32::MAX && buffers[ssrc].speech + speaking.len() <= u32::MAX,
    ensures
        tick_fits(buffers, speaking, silent),
{
    let room = (u32::MAX - speaking.len() - silent.len()) as nat;
    let limit = (u32::MAX - speaking.len()) as nat;
    assert forall|k: int| 0 <= k <= speaking.len() implies all_fit(
        #[trigger] after_speech(buffers, speaking.take(k)),
    ) by {
        lemma_counts_after_speech(buffers, speaking.take(k), room, limit);
    }
    assert(speaking.take(speaking.len() as int) =~= speaking);
    lemma_counts_after_speech(buffers, speaking, room, limit);
    let spoken = after_speech(buffers, speaking);
    assert forall|k: int| 0 <= k <= silent.len() implies all_fit(
        #[trigger] after_silence(spoken, silent.take(k)),
    ) by {
        lemma_counts_after_silence(
            spoken,
            silent.take(k),
            room + speaking.len(),
            limit + speaking.len(),
        );
    }
}

proof fn lemma_counts_after_speech(
    buffers: Map<u32, Buffered>,
    speaking: Seq<(u32, Option<Seq<i16>>)>,
    silence: nat,
    speech: nat,
)
    requires
        forall|ssrc: u32| #[trigger]
            buffers.contains_key(ssrc) ==> buffers[ssrc].silence <= silence && buffers[ssrc].speech
                <= speech,
    ensures
        forall|ssrc: u32| #[trigger]
            after_speech(buffers, speaking).contains_key(ssrc) ==> after_speech(
                buffers,
                speaking,
            )[ssrc].silence <= silence + speaking.len() && after_speech(
                buffers,
                speaking,
            )[ssrc].speech <= speech + speaking.len(),
    decreases speaking.len(),
{
    if speaking.len() > 0 {
        let front = speaking.drop_last();
        lemma_counts_after_speech(buffers, front, silence, speech);
        let before = after_speech(buffers, front);
        let all = after_speech(buffers, speaking);
        let last = speaking.last().0;
        assert forall|ssrc: u32| #[trigger] all.contains_key(ssrc) implies all[ssrc].silence
            <= silence + speaking.len() && all[ssrc].speech <= speech + speaking.len() by {
            if ssrc != last {
                assert(before.contains_key(ssrc));
            } else if before.contains_key(last) {
                assert(before[last].silence <= silence + front.len());
            }
        }
    }
}

proof fn lemma_counts_after_silence(
    buffers: Map<u32, Buffered>,
    silent: Seq<u32>,
    silence: nat,
    speech: nat,
)
    requires
        forall|ssrc: u32| #[trigger]
            buffers.contains_key(ssrc) ==> buffers[ssrc].silence <= silence && buffers[ssrc].speech
                <= speech,
    ensures
        forall|ssrc: u32| #[trigger]
            after_silence(buffers, silent).contains_key(ssrc) ==> after_silence(
                buffers,
                silent,
            )[ssrc].silence <= silence + silent.len() && after_silence(
                buffers,
                silent,
            )[ssrc].speech <= speech,
    decreases silent.len(),
{
    if silent.len() > 0 {
        let front = silent.drop_last();
        lemma_counts_after_silence(buffers, front, silence, speech);
        let before = after_silence(buffers, front);
        let all = after_silence(buffers, silent);
        assert forall|ssrc: u32| #[trigger] all.contains_key(ssrc) implies all[ssrc].silence
            <= silence + silent.len() && all[ssrc].speech <= speech by {
            assert(before.contains_key(ssrc));
        }
    }
}

}
