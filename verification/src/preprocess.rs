//! Which files of the video tree a placeholder scan looks at.
use vstd::prelude::*;
use crate::text::{starts_with, str_equal};

verus! {

/// A video is scanned when its extension is `mp4` and its file name (when it
/// has one that is valid text) does not start with `nd-`.
pub open spec fn spec_should_scan(extension: Option<Seq<char>>, file_name: Option<Seq<char>>) -> bool {
    &&& extension == Some("mp4"@)
    &&& !(file_name matches Some(n) && starts_with(n, "nd-"@))
}

/// Decides whether a file found under the video tree gets a placeholder scan.
pub fn should_scan_video(extension: Option<&str>, file_name: Option<&str>) -> (r: bool)
    ensures
        r == spec_should_scan(
            match extension {
                Some(e) => Some(e@),
                None => None,
            },
            match file_name {
                Some(n) => Some(n@),
                None => None,
            },
        ),
{
    proof {
        reveal_strlit("nd-");
    }
    let is_mp4 = match extension {
        Some(e) => str_equal(e, "mp4"),
        None => false,
    };
    if !is_mp4 {
        return false;
    }
    match file_name {
        Some(n) => {
            let len = n.unicode_len();
            let skipped = len >= 3 && n.get_char(0) == 'n' && n.get_char(1) == 'd' && n.get_char(2)
                == '-';
            proof {
                if len >= 3 {
                    if n@.subrange(0, 3) == "nd-"@ {
                        assert(n@.subrange(0, 3)[0] == n@[0]);
                        assert(n@.subrange(0, 3)[1] == n@[1]);
                        assert(n@.subrange(0, 3)[2] == n@[2]);
                    }
                    if skipped {
                        assert(n@.subrange(0, 3) =~= "nd-"@);
                    }
                }
            }
            !skipped
        },
        None => true,
    }
}

} // verus!
