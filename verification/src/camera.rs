//! Camera format negotiation: the decision logic that picks a stream
//! configuration from what a device advertises. The device itself is owned
//! and queried by the caller; this module only decides.
use vstd::prelude::*;
use crate::error::Error;

verus! {

/// The resolutions a device advertises for a pixel format.
#[derive(Debug, Clone)]
pub enum CamResolutions {
    /// Discretely enumerated width/height pairs.
    Discrete(Vec<(u32, u32)>),
    /// A continuous (stepwise) range, which negotiation does not support.
    Continuous,
}

/// The frame intervals a device advertises for a format and resolution.
#[derive(Debug, Clone)]
pub enum CamIntervals {
    /// Discretely enumerated numerator/denominator pairs.
    Discrete(Vec<(u32, u32)>),
    /// A continuous (stepwise) range, which negotiation does not support.
    Continuous,
}

/// A negotiated grayscale stream configuration.
#[derive(Debug, Clone, Copy, PartialEq, Eq)]
pub struct StreamConfig {
    pub resolution: (u32, u32),
    pub interval: (u32, u32),
}

/// The first discretely advertised resolution, or a configuration error
/// when none is offered or only a continuous range is.
pub fn pick_resolution(res: &CamResolutions) -> (r: Result<(u32, u32), Error>)
    ensures
        match res {
            CamResolutions::Discrete(v) => if v@.len() > 0 {
                r == Ok::<(u32, u32), Error>(v@[0])
            } else {
                r matches Err(Error::Other(_))
            },
            CamResolutions::Continuous => r matches Err(Error::Other(_)),
        },
{
    match res {
        CamResolutions::Discrete(v) => {
            if v.len() > 0 {
                Ok(v[0])
            } else {
                Err(Error::Other(String::from_str("no resolutions advertised")))
            }
        },
        CamResolutions::Continuous => Err(
            Error::Other(String::from_str("only discrete resolutions are supported")),
        ),
    }
}

/// The first discretely advertised frame interval, or a configuration
/// error when none is offered or only a continuous range is.
pub fn pick_interval(intervals: &CamIntervals) -> (r: Result<(u32, u32), Error>)
    ensures
        match intervals {
            CamIntervals::Discrete(v) => if v@.len() > 0 {
                r == Ok::<(u32, u32), Error>(v@[0])
            } else {
                r matches Err(Error::Other(_))
            },
            CamIntervals::Continuous => r matches Err(Error::Other(_)),
        },
{
    match intervals {
        CamIntervals::Discrete(v) => {
            if v.len() > 0 {
                Ok(v[0])
            } else {
                Err(Error::Other(String::from_str("no intervals advertised")))
            }
        },
        CamIntervals::Continuous => Err(
            Error::Other(String::from_str("only discrete intervals are supported")),
        ),
    }
}

/// Negotiate a grayscale stream: the device must advertise the grayscale
/// format, and the first discrete resolution and frame interval are taken.
pub fn configure(gray_supported: bool, res: &CamResolutions, intervals: &CamIntervals) -> (r:
    Result<StreamConfig, Error>)
    ensures
        !gray_supported ==> r matches Err(Error::Other(_)),
        gray_supported ==> match (res, intervals) {
            (CamResolutions::Discrete(rv), CamIntervals::Discrete(iv)) => if rv@.len() > 0
                && iv@.len() > 0 {
                r == Ok::<StreamConfig, Error>(
                    StreamConfig { resolution: rv@[0], interval: iv@[0] },
                )
            } else {
                r matches Err(Error::Other(_))
            },
            _ => r matches Err(Error::Other(_)),
        },
{
    if !gray_supported {
        return Err(Error::Other(String::from_str("no suitable grayscale format found")));
    }
    let resolution = match pick_resolution(res) {
        Ok(rv) => rv,
        Err(e) => {
            return Err(e);
        },
    };
    let interval = match pick_interval(intervals) {
        Ok(iv) => iv,
        Err(e) => {
            return Err(e);
        },
    };
    Ok(StreamConfig { resolution, interval })
}

} // verus!
