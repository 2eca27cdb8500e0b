//! Which set-ups the coders take.

use vstd::prelude::*;

verus! {

/// Why a set-up was refused.
#[derive(Clone, Copy, Debug, PartialEq, Eq, Structural)]
pub enum ConfigError {
    /// The coded rate is not 8, 12 or 16 kHz.
    InternalRate,
    /// A frame has neither two nor four parts.
    Subframes,
    /// The input is not a whole number of frames, one at least.
    InputLength,
    /// The two channels differ in length.
    ChannelLengths,
    /// The numbers of streams do not fit.
    Streams,
    /// The output rate is not one of the five.
    OutputRate,
    /// A channel takes a decoded channel that there is not.
    Mapping,
    /// There is no output channel.
    NoChannel,
}

/// Checks the set-up of a linear-prediction coder.
pub fn check_silk_config(fs_khz: i32, nb_subfr: usize) -> (r: Result<(), ConfigError>)
    ensures
        r == if fs_khz != 8 && fs_khz != 12 && fs_khz != 16 {
            Err::<(), ConfigError>(ConfigError::InternalRate)
        } else if nb_subfr != 2 && nb_subfr != 4 {
            Err(ConfigError::Subframes)
        } else {
            Ok(())
        },
{
    if fs_khz != 8 && fs_khz != 12 && fs_khz != 16 {
        return Err(ConfigError::InternalRate);
    }
    if nb_subfr != 2 && nb_subfr != 4 {
        return Err(ConfigError::Subframes);
    }
    Ok(())
}

/// The samples of a frame of a linear-prediction coder.
pub fn frame_length(fs_khz: i32, nb_subfr: usize) -> (r: usize)
    requires
        fs_khz == 8 || fs_khz == 12 || fs_khz == 16,
        nb_subfr == 2 || nb_subfr == 4,
    ensures
        r == 5 * nb_subfr * fs_khz,
        r > 0,
{
    if nb_subfr == 2 {
        10 * fs_khz as usize
    } else {
        20 * fs_khz as usize
    }
}

/// Checks the length of the input of a linear-prediction coder.
pub fn check_input(fs_khz: i32, nb_subfr: usize, len: usize) -> (r: Result<(), ConfigError>)
    requires
        fs_khz == 8 || fs_khz == 12 || fs_khz == 16,
        nb_subfr == 2 || nb_subfr == 4,
    ensures
        r == if len > 0 && len as int % (5 * nb_subfr * fs_khz) == 0 {
            Ok::<(), ConfigError>(())
        } else {
            Err(ConfigError::InputLength)
        },
{
    let frame: usize = frame_length(fs_khz, nb_subfr);
    if len == 0 || len % frame != 0 {
        return Err(ConfigError::InputLength);
    }
    Ok(())
}

/// Checks the lengths of the inputs of a stereo linear-prediction coder.
pub fn check_stereo_input(fs_khz: i32, nb_subfr: usize, left: usize, right: usize) -> (r: Result<(), ConfigError>)
    requires
        fs_khz == 8 || fs_khz == 12 || fs_khz == 16,
        nb_subfr == 2 || nb_subfr == 4,
    ensures
        r == if left != right {
            Err::<(), ConfigError>(ConfigError::ChannelLengths)
        } else if left == 0 || left as int % (5 * nb_subfr * fs_khz) != 0 {
            Err(ConfigError::InputLength)
        } else {
            Ok(())
        },
{
    if left != right {
        return Err(ConfigError::ChannelLengths);
    }
    check_input(fs_khz, nb_subfr, left)
}

/// Whether a rate is one that the decoder gives.
pub open spec fn is_output_rate(rate: int) -> bool {
    rate == 48_000 || rate == 24_000 || rate == 16_000 || rate == 12_000 || rate == 8_000
}

/// Checks the set-up of a decoder of several streams, of which the first `coupled`
/// are stereo: each output channel takes a decoded channel, or none by 255.
pub fn check_multistream(streams: usize, coupled: usize, mapping: &[u8], sample_rate: u32) -> (r: Result<(), ConfigError>)
    ensures
        r == if streams < 1 || coupled > streams || streams + coupled > 255 {
            Err::<(), ConfigError>(ConfigError::Streams)
        } else if !is_output_rate(sample_rate as int) {
            Err(ConfigError::OutputRate)
        } else if exists|i: int| 0 <= i < mapping@.len() && #[trigger] mapping@[i] != 255 && mapping@[i] >= streams + coupled {
            Err(ConfigError::Mapping)
        } else if mapping@.len() == 0 {
            Err(ConfigError::NoChannel)
        } else {
            Ok(())
        },
{
    if streams < 1 || streams > 255 || coupled > streams || streams + coupled > 255 {
        return Err(ConfigError::Streams);
    }
    if !(sample_rate == 48_000 || sample_rate == 24_000 || sample_rate == 16_000 || sample_rate == 12_000 || sample_rate
        == 8_000) {
        return Err(ConfigError::OutputRate);
    }
    let n: usize = mapping.len();
    let mut i: usize = 0;
    while i < n
        invariant
            i <= n,
            n == mapping@.len(),
            streams + coupled <= 255,
            streams >= 1,
            coupled <= streams,
            is_output_rate(sample_rate as int),
            forall|j: int| 0 <= j < i ==> #[trigger] mapping@[j] == 255 || mapping@[j] < streams + coupled,
        decreases n - i,
    {
        if mapping[i] != 255 && mapping[i] as usize >= streams + coupled {
            return Err(ConfigError::Mapping);
        }
        i = i + 1;
    }
    if n == 0 {
        return Err(ConfigError::NoChannel);
    }
    Ok(())
}

} // verus!
