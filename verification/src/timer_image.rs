use vstd::prelude::*;

use crate::area_state::AreaError;
use crate::resource::resource_lookup;
use crate::util::Size;

verus! {

/// The serialized form of a timer image: its identifier, the identifiers
/// of its frames in play order, and how long each frame shows.
#[derive(Debug)]
pub struct TimerImageBuilder {
    pub id: String,
    pub frames: Vec<String>,
    pub frame_time_millis: u32,
}

/// An animated image that cycles through equally sized frames on a fixed
/// clock.
#[derive(Debug)]
pub struct TimerImage {
    id: String,
    frames: Vec<String>,
    frame_time_millis: u32,
    size: Size,
}

impl TimerImage {
    pub closed spec fn spec_id(&self) -> Seq<char> {
        self.id@
    }

    pub closed spec fn spec_frames(&self) -> Seq<String> {
        self.frames@
    }

    pub closed spec fn spec_frame_time_millis(&self) -> u32 {
        self.frame_time_millis
    }

    pub closed spec fn spec_size(&self) -> Size {
        self.size
    }

    /// At least one frame, all frames resolvable to one shared size, and
    /// a positive cycle length that fits the clock.
    pub open spec fn builds_ok(builder: &TimerImageBuilder, images: Seq<(String, Size)>) -> bool {
        &&& builder.frames@.len() >= 1
        &&& 1 <= builder.frame_time_millis
        &&& builder.frame_time_millis * builder.frames@.len() <= u32::MAX
        &&& (forall|k: int|
            0 <= k < builder.frames@.len() ==> resource_lookup(
                images,
                (#[trigger] builder.frames@[k])@,
            ) is Some)
        &&& (forall|k: int|
            0 <= k < builder.frames@.len() ==> resource_lookup(
                images,
                (#[trigger] builder.frames@[k])@,
            ) == resource_lookup(images, builder.frames@[0]@))
    }

    /// Builds the timer image, resolving each frame against the loaded
    /// images.  A missing frame, differing frame sizes, an empty frame
    /// list or a degenerate clock are rejected as invalid data.
    #[verifier::loop_isolation(false)]
    pub fn new(builder: TimerImageBuilder, images: &Vec<(String, Size)>) -> (r: Result<
        TimerImage,
        AreaError,
    >)
        ensures
            r is Ok <==> Self::builds_ok(&builder, images@),
            r matches Ok(t) ==> ({
                &&& t.spec_id() == builder.id@
                &&& t.spec_frames() == builder.frames@
                &&& t.spec_frame_time_millis() == builder.frame_time_millis
                &&& Some(t.spec_size()) == resource_lookup(images@, builder.frames@[0]@)
            }),
    {
        if builder.frames.len() == 0 {
            return Err(AreaError::InvalidData);
        }
        if builder.frame_time_millis < 1 {
            return Err(AreaError::InvalidData);
        }
        let limit = u32::MAX / builder.frame_time_millis;
        if (builder.frames.len() as u64) > (limit as u64) {
            proof {
                assert(builder.frame_time_millis * builder.frames@.len() > u32::MAX)
                    by (nonlinear_arith)
                    requires
                        builder.frame_time_millis >= 1,
                        limit == u32::MAX as int / builder.frame_time_millis as int,
                        builder.frames@.len() > limit,
                ;
            }
            return Err(AreaError::InvalidData);
        }
        proof {
            assert(builder.frame_time_millis * builder.frames@.len() <= u32::MAX)
                by (nonlinear_arith)
                requires
                    builder.frame_time_millis >= 1,
                    limit == u32::MAX as int / builder.frame_time_millis as int,
                    1 <= builder.frames@.len() <= limit,
            ;
        }

        let first_size = match crate::resource::get_resource(builder.frames[0].as_str(), images) {
            None => {
                return Err(AreaError::InvalidData);
            },
            Some(s) => *s,
        };
        let mut k: usize = 1;
        while k < builder.frames.len()
            invariant
                1 <= k <= builder.frames@.len(),
                resource_lookup(images@, builder.frames@[0]@) == Some(first_size),
                forall|j: int|
                    0 <= j < k ==> resource_lookup(images@, (#[trigger] builder.frames@[j])@)
                        == Some(first_size),
            decreases builder.frames@.len() - k,
        {
            let size = match crate::resource::get_resource(builder.frames[k].as_str(), images) {
                None => {
                    return Err(AreaError::InvalidData);
                },
                Some(s) => *s,
            };
            if !(size.width == first_size.width && size.height == first_size.height) {
                return Err(AreaError::InvalidData);
            }
            k += 1;
        }
        Ok(
            TimerImage {
                id: builder.id,
                frames: builder.frames,
                frame_time_millis: builder.frame_time_millis,
                size: first_size,
            },
        )
    }

    /// Which frame shows at the given clock: the cycle position divided by
    /// the frame time.
    pub fn get_cur_frame(&self, millis: u32) -> (r: usize)
        requires
            self.spec_frames().len() >= 1,
            1 <= self.spec_frame_time_millis(),
            self.spec_frame_time_millis() * self.spec_frames().len() <= u32::MAX,
        ensures
            r == (millis as int % (self.spec_frame_time_millis()
                * self.spec_frames().len())) / self.spec_frame_time_millis() as int,
            r < self.spec_frames().len(),
    {
        proof {
            assert(self.frames@.len() <= u32::MAX) by (nonlinear_arith)
                requires
                    self.frame_time_millis >= 1,
                    self.frame_time_millis * self.spec_frames().len() <= u32::MAX,
                    self.spec_frames().len() >= 1,
            ;
        }
        let len = self.frames.len() as u32;
        proof {
            assert(self.frame_time_millis * len >= 1) by (nonlinear_arith)
                requires
                    self.frame_time_millis >= 1,
                    len >= 1,
            ;
        }
        let total_frame_time = self.frame_time_millis * len;
        let offset = millis % total_frame_time;
        let index = (offset / self.frame_time_millis) as usize;
        proof {
            let ftm = self.frame_time_millis as int;
            let n = self.spec_frames().len() as int;
            let off = offset as int;
            assert(off < ftm * n);
            assert(off / ftm < n) by (nonlinear_arith)
                requires
                    ftm >= 1,
                    0 <= off,
                    off < ftm * n,
            ;
        }
        index
    }

    /// The shared frame size.
    pub fn get_size(&self) -> (r: Size)
        ensures
            r == self.spec_size(),
    {
        self.size
    }
}

} // verus!
