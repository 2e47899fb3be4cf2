//! The keys of a torrent dictionary that the descriptor reads, as bytes.

use vstd::prelude::*;

verus! {

/// A key of the top-level dictionary or of the `info` dictionary.
#[derive(Debug, Clone, Copy, PartialEq, Eq, Structural)]
pub enum Key {
    /// `info`
    Info,
    /// `name`
    Name,
    /// `length`
    Length,
    /// `piece length`
    PieceLength,
    /// `pieces`
    Pieces,
    /// `private`
    Private,
    /// `announce`
    Announce,
    /// `comment`
    Comment,
    /// `created by`
    CreatedBy,
    /// `creation date`
    CreationDate,
    /// `urlList`
    UrlList,
    /// `announce-list`
    AnnounceList,
    /// `files`
    Files,
    /// `path`
    Path,
    /// `offset`
    Offset,
    /// `md5sum`
    Md5sum,
    /// `infoBuffer`
    InfoBuffer,
    /// `infoHash`
    InfoHash,
    /// `infoHashBuffer`
    InfoHashBuffer,
    /// `lastPieceLength`
    LastPieceLength,
}

/// The bytes of a key, as they stand in a torrent file.
pub open spec fn key_text(k: Key) -> Seq<u8> {
    match k {
        Key::Info => seq![105u8, 110u8, 102u8, 111u8],
        Key::Name => seq![110u8, 97u8, 109u8, 101u8],
        Key::Length => seq![108u8, 101u8, 110u8, 103u8, 116u8, 104u8],
        Key::PieceLength => seq![
            112u8, 105u8, 101u8, 99u8, 101u8, 32u8, 108u8, 101u8, 110u8, 103u8, 116u8, 104u8,
        ],
        Key::Pieces => seq![112u8, 105u8, 101u8, 99u8, 101u8, 115u8],
        Key::Private => seq![112u8, 114u8, 105u8, 118u8, 97u8, 116u8, 101u8],
        Key::Announce => seq![97u8, 110u8, 110u8, 111u8, 117u8, 110u8, 99u8, 101u8],
        Key::Comment => seq![99u8, 111u8, 109u8, 109u8, 101u8, 110u8, 116u8],
        Key::CreatedBy => seq![99u8, 114u8, 101u8, 97u8, 116u8, 101u8, 100u8, 32u8, 98u8, 121u8],
        Key::CreationDate => seq![
            99u8, 114u8, 101u8, 97u8, 116u8, 105u8, 111u8, 110u8, 32u8, 100u8, 97u8, 116u8, 101u8,
        ],
        Key::UrlList => seq![117u8, 114u8, 108u8, 76u8, 105u8, 115u8, 116u8],
        Key::AnnounceList => seq![
            97u8, 110u8, 110u8, 111u8, 117u8, 110u8, 99u8, 101u8, 45u8, 108u8, 105u8, 115u8, 116u8,
        ],
        Key::Files => seq![102u8, 105u8, 108u8, 101u8, 115u8],
        Key::Path => seq![112u8, 97u8, 116u8, 104u8],
        Key::Offset => seq![111u8, 102u8, 102u8, 115u8, 101u8, 116u8],
        Key::Md5sum => seq![109u8, 100u8, 53u8, 115u8, 117u8, 109u8],
        Key::InfoBuffer => seq![
            105u8, 110u8, 102u8, 111u8, 66u8, 117u8, 102u8, 102u8, 101u8, 114u8,
        ],
        Key::InfoHash => seq![105u8, 110u8, 102u8, 111u8, 72u8, 97u8, 115u8, 104u8],
        Key::InfoHashBuffer => seq![
            105u8, 110u8, 102u8, 111u8, 72u8, 97u8, 115u8, 104u8, 66u8, 117u8, 102u8, 102u8, 101u8,
            114u8,
        ],
        Key::LastPieceLength => seq![
            108u8, 97u8, 115u8, 116u8, 80u8, 105u8, 101u8, 99u8, 101u8, 76u8, 101u8, 110u8, 103u8,
            116u8, 104u8,
        ],
    }
}

/// Gives the bytes of a key.
pub fn key_bytes(k: Key) -> (r: Vec<u8>)
    ensures
        r@ == key_text(k),
{
    let r: Vec<u8> = match k {
        Key::Info => vec![105u8, 110u8, 102u8, 111u8],
        Key::Name => vec![110u8, 97u8, 109u8, 101u8],
        Key::Length => vec![108u8, 101u8, 110u8, 103u8, 116u8, 104u8],
        Key::PieceLength => vec![
            112u8, 105u8, 101u8, 99u8, 101u8, 32u8, 108u8, 101u8, 110u8, 103u8, 116u8, 104u8,
        ],
        Key::Pieces => vec![112u8, 105u8, 101u8, 99u8, 101u8, 115u8],
        Key::Private => vec![112u8, 114u8, 105u8, 118u8, 97u8, 116u8, 101u8],
        Key::Announce => vec![97u8, 110u8, 110u8, 111u8, 117u8, 110u8, 99u8, 101u8],
        Key::Comment => vec![99u8, 111u8, 109u8, 109u8, 101u8, 110u8, 116u8],
        Key::CreatedBy => vec![99u8, 114u8, 101u8, 97u8, 116u8, 101u8, 100u8, 32u8, 98u8, 121u8],
        Key::CreationDate => vec![
            99u8, 114u8, 101u8, 97u8, 116u8, 105u8, 111u8, 110u8, 32u8, 100u8, 97u8, 116u8, 101u8,
        ],
        Key::UrlList => vec![117u8, 114u8, 108u8, 76u8, 105u8, 115u8, 116u8],
        Key::AnnounceList => vec![
            97u8, 110u8, 110u8, 111u8, 117u8, 110u8, 99u8, 101u8, 45u8, 108u8, 105u8, 115u8, 116u8,
        ],
        Key::Files => vec![102u8, 105u8, 108u8, 101u8, 115u8],
        Key::Path => vec![112u8, 97u8, 116u8, 104u8],
        Key::Offset => vec![111u8, 102u8, 102u8, 115u8, 101u8, 116u8],
        Key::Md5sum => vec![109u8, 100u8, 53u8, 115u8, 117u8, 109u8],
        Key::InfoBuffer => vec![
            105u8, 110u8, 102u8, 111u8, 66u8, 117u8, 102u8, 102u8, 101u8, 114u8,
        ],
        Key::InfoHash => vec![105u8, 110u8, 102u8, 111u8, 72u8, 97u8, 115u8, 104u8],
        Key::InfoHashBuffer => vec![
            105u8, 110u8, 102u8, 111u8, 72u8, 97u8, 115u8, 104u8, 66u8, 117u8, 102u8, 102u8, 101u8,
            114u8,
        ],
        Key::LastPieceLength => vec![
            108u8, 97u8, 115u8, 116u8, 80u8, 105u8, 101u8, 99u8, 101u8, 76u8, 101u8, 110u8, 103u8,
            116u8, 104u8,
        ],
    };
    assert(r@ =~= key_text(k));
    r
}

} // verus!
