//! Received files as the client keeps them, and what saving one writes.
use vstd::prelude::*;
use crate::message::{Message, MessageView};

verus! {

/// A file received in the chat, kept for viewing and saving.
#[derive(Clone, Debug)]
pub struct FileInfo {
    pub filename: String,
    pub size: u64,
    pub data: Vec<u8>,
    pub sender: String,
}

impl FileInfo {
    /// The file that an envelope carries; none for the other kinds.
    pub fn from_message(m: &Message) -> (r: Option<FileInfo>)
        ensures
            m@ matches MessageView::File { username, filename, size, data, .. } ==> (r matches Some(
                f,
            ) && f.filename@ == filename && f.size == size && f.data@ == data && f.sender@
                == username),
            !(m@ is File) ==> r is None,
    {
        match m {
            Message::File { username, filename, size, data, .. } => {
                let copy = data.clone();
                assert(copy@ =~= data@);
                Some(
                    FileInfo {
                        filename: filename.clone(),
                        size: *size,
                        data: copy,
                        sender: username.clone(),
                    },
                )
            },
            _ => None,
        }
    }
}

/// Moves files between envelopes and the local disk.
pub struct FileTransfer;

impl FileTransfer {
    /// The name and bytes that saving an envelope writes; none for an
    /// envelope that carries no file.
    pub fn saved_parts(m: &Message) -> (r: Option<(String, Vec<u8>)>)
        ensures
            m@ matches MessageView::File { filename, data, .. } ==> (r matches Some((n, d))
                && n@ == filename && d@ == data),
            !(m@ is File) ==> r is None,
    {
        match m {
            Message::File { filename, data, .. } => {
                let copy = data.clone();
                assert(copy@ =~= data@);
                Some((filename.clone(), copy))
            },
            _ => None,
        }
    }
}

} // verus!
