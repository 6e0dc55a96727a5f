use vstd::prelude::*;

verus! {

/// The ways a life-progress computation can fail.
#[derive(Clone, Copy, Debug, PartialEq, Eq, Structural)]
pub enum LifeError {
    /// The birthday text matches none of the accepted shapes, or names no real date.
    InvalidFormat,
    /// The birthday lies after the day the computation is made for.
    FutureBirthday,
    /// The lifespan dataset has no `"Common"` fallback entry.
    Configuration,
    /// The lifespan dataset could not be obtained.
    DataUnavailable,
}

/// The English description of each error.
pub open spec fn message_of(e: LifeError) -> Seq<char> {
    match e {
        LifeError::InvalidFormat => "birthday must be '%Y-%m-%d', '%Y%m%d' or millis timestamp"@,
        LifeError::FutureBirthday => "birthday lies in the future"@,
        LifeError::Configuration => "lifespan dataset has no 'Common' entry"@,
        LifeError::DataUnavailable => "lifespan dataset is unavailable"@,
    }
}

impl LifeError {
    /// A short English description of the error.
    pub fn message(&self) -> (r: String)
        ensures
            r@ == message_of(*self),
    {
        match self {
            LifeError::InvalidFormat => "birthday must be '%Y-%m-%d', '%Y%m%d' or millis timestamp".to_owned(),
            LifeError::FutureBirthday => "birthday lies in the future".to_owned(),
            LifeError::Configuration => "lifespan dataset has no 'Common' entry".to_owned(),
            LifeError::DataUnavailable => "lifespan dataset is unavailable".to_owned(),
        }
    }
}

} // verus!
