use vstd::prelude::*;

verus! {

/// Everything that can go wrong while reconciling tracked folders.
///
/// Variants that wrap a failure of an outside service or of the host
/// (`ReqwestErr`, `SerdeJsonErr`, `IoErr`, `ConfyErr`, `DownloadErr`) carry the
/// rendered message of the underlying error; the caller that performs the
/// transport converts into these before handing control back to the library.
#[derive(Debug)]
pub enum Error {
    /// The configuration holds no access token.
    EmptyToken,
    /// The remote service rejected the access token.
    InvalidToken,
    /// The remote service answered with an error payload.
    CanvasError { msg: String, url: String },
    /// The configuration file location could not be determined.
    UnableToGetConfigPath,
    /// A free-form error message.
    Debug(String),
    /// A download target whose parent directory does not exist.
    DownloadNoParentDir(String),
    /// A tracked url that does not name a course folder.
    InvalidTrackingUrl(String),
    /// A tracked url whose course contains no folder under the tracked path.
    NoFoldersFoundInCourse { url: String },
    /// A download that failed in transit.
    DownloadErr { url: String, msg: String },
    /// No collision-free name could be found for this download target.
    CollisionExhausted(String),
    /// A transport failure.
    ReqwestErr(String),
    /// A decoding failure.
    SerdeJsonErr(String),
    /// A filesystem failure.
    IoErr(String),
    /// A configuration-store failure.
    ConfyErr(String),
}

impl Error {
    /// Wrap a plain message as an error.
    pub fn of(msg: &str) -> (r: Error)
        ensures
            r matches Error::Debug(m) && m@ == msg@,
    {
        Error::Debug(msg.to_owned())
    }
}

} // verus!
