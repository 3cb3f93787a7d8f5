//! What is known of an application image.

use crate::fota::protocol;
use crate::fota::protocol::{crc32, FirmwareMetadata};
use crate::text;
use vstd::prelude::*;

verus! {

/// The identity of a build, recorded next to its image so that it need not be retyped.
#[derive(Clone, Debug)]
pub struct Manifest {
    pub project: String,
    pub board: String,
    pub version: String,
    pub git_hash: String,
}

impl Default for Manifest {
    fn default() -> (m: Self)
        ensures
            m.project@.len() == 0,
            m.board@.len() == 0,
            m.version@.len() == 0,
            m.git_hash@.len() == 0,
    {
        Self {
            project: String::new(),
            board: String::new(),
            version: String::new(),
            git_hash: String::new(),
        }
    }
}

/// The metadata of an image. The checksum covers exactly the bytes of the image.
pub fn build_metadata(image: &[u8], project: &str, version: (u8, u8), git: &str) -> (meta:
    FirmwareMetadata)
    ensures
        meta.image_size == image@.len() as u32,
        meta.image_crc32 == protocol::crc32_ieee(image@),
        meta.version_major == version.0,
        meta.version_minor == version.1,
        meta.project_name@ == project@,
        meta.git_hash@ == git@,
{
    FirmwareMetadata {
        image_size: image.len() as u32,
        image_crc32: crc32(image),
        version_major: version.0,
        version_minor: version.1,
        project_name: project.to_owned(),
        git_hash: git.to_owned(),
    }
}

/// The project name that is flashed: the one given, or where that is blank the stem of the
/// image file, or `app` where the file has none.
pub open spec fn flashed_project(project: Seq<char>, stem: Option<Seq<char>>) -> Seq<char> {
    if text::trimmed(project).len() > 0 {
        project
    } else {
        match stem {
            Some(s) => s,
            None => "app"@,
        }
    }
}

/// The project name that is flashed.
pub fn project_name(project: &str, stem: Option<&str>) -> (name: String)
    ensures
        name@ == flashed_project(
            project@,
            match stem {
                Some(s) => Some(s@),
                None => None,
            },
        ),
{
    if text::is_blank(project) {
        match stem {
            Some(s) => s.to_owned(),
            None => "app".to_owned(),
        }
    } else {
        project.to_owned()
    }
}

/// Whether a file with the given extension is a raw image, flashed as it is. Any other file
/// is taken for an object file that is converted first.
pub fn is_raw_image(extension: &str) -> (yes: bool)
    ensures
        yes == (text::ascii_lower(extension@) == text::ascii_lower("bin"@)),
{
    text::same_ignoring_case(extension, "bin")
}

/// Whether a dropped file with the given extension is a manifest. Any other file is an image.
pub fn is_manifest(extension: Option<&str>) -> (yes: bool)
    ensures
        yes == match extension {
            Some(e) => text::ascii_lower(e@) == text::ascii_lower("json"@),
            None => false,
        },
{
    match extension {
        Some(e) => text::same_ignoring_case(e, "json"),
        None => false,
    }
}

/// A project name that says something is flashed as it is; a blank one gives way to the stem of
/// the image file, and that to a fixed name.
pub proof fn law_named_projects_keep_their_names(project: Seq<char>, stem: Seq<char>)
    ensures
        text::trimmed(project).len() > 0 ==> flashed_project(project, Some(stem)) == project
            && flashed_project(project, None) == project,
        text::trimmed(project).len() == 0 ==> flashed_project(project, Some(stem)) == stem
            && flashed_project(project, None) == "app"@,
{
}

} // verus!
