//! What is written to a manifest when an entry is created or edited.

use vstd::prelude::*;
use crate::error::LibraryError;
use crate::text::{
    is_space, lemma_trim_empty_iff_blank, normalize_new_text, normalize_spec, trim_seq, trim_text,
};

verus! {

/// The episode count that marks a work as still airing.
pub const UNFINISHED_EPISODES: i64 = -1;

/// What the user asks to write for an entry.
#[derive(Clone, Debug, PartialEq, Eq)]
pub struct NewAnimePayload {
    pub title: String,
    pub fansub: Option<String>,
    pub subtitle_type: Option<String>,
    pub episodes: i64,
    pub quality: Option<String>,
    pub note: Option<String>,
    pub is_finished: bool,
}

/// The fields written to a manifest file.
#[derive(Clone, Debug, PartialEq, Eq)]
pub struct ManifestWriteModel {
    pub title: String,
    pub is_parent: Option<bool>,
    pub fansub: String,
    pub subtitle_type: String,
    pub episodes: i64,
    pub quality: String,
    pub note: String,
}

/// Whether `payload` is refused: its title is blank, or it declares a
/// finished work with a negative episode count.
pub open spec fn payload_invalid(payload: NewAnimePayload) -> bool {
    trim_seq(payload.title@).len() == 0 || (payload.is_finished && payload.episodes < 0)
}

/// Whether `m` holds what is written for `payload`: trimmed texts, the
/// episode count of a finished work or else the unfinished mark, and the
/// parent flag only where the manifest already had it.
pub open spec fn model_for(payload: NewAnimePayload, keep_parent: bool, m: ManifestWriteModel) -> bool {
    &&& m.title@ == trim_seq(payload.title@)
    &&& m.is_parent == (if keep_parent { Some(true) } else { None })
    &&& m.fansub@ == normalize_spec(payload.fansub)
    &&& m.subtitle_type@ == normalize_spec(payload.subtitle_type)
    &&& m.episodes == (if payload.is_finished { payload.episodes } else { UNFINISHED_EPISODES })
    &&& m.quality@ == normalize_spec(payload.quality)
    &&& m.note@ == normalize_spec(payload.note)
}

/// Checks `payload` and builds what is written to its manifest. The parent
/// flag is kept when `existing_parent_flag` says the manifest had it, and is
/// never added otherwise.
pub fn prepare_manifest(payload: &NewAnimePayload, existing_parent_flag: bool) -> (r: Result<
    ManifestWriteModel,
    LibraryError,
>)
    ensures
        payload_invalid(*payload) <==> r is Err,
        r is Err ==> r->Err_0 is Validation,
        r is Ok ==> model_for(*payload, existing_parent_flag, r->Ok_0),
{
    let title = trim_text(payload.title.as_str());
    if title.unicode_len() == 0 {
        return Err(LibraryError::Validation(String::from_str("动画名称不能为空")));
    }
    let episodes = if payload.is_finished {
        if payload.episodes < 0 {
            return Err(
                LibraryError::Validation(
                    String::from_str("已完结动画的集数必须是非负整数（0 表示未知）"),
                ),
            );
        }
        payload.episodes
    } else {
        UNFINISHED_EPISODES
    };
    Ok(
        ManifestWriteModel {
            title,
            is_parent: if existing_parent_flag {
                Some(true)
            } else {
                None
            },
            fansub: normalize_new_text(&payload.fansub),
            subtitle_type: normalize_new_text(&payload.subtitle_type),
            episodes,
            quality: normalize_new_text(&payload.quality),
            note: normalize_new_text(&payload.note),
        },
    )
}

/// Checks `payload` for a new manifest, which never carries the parent flag.
pub fn new_manifest_model(payload: &NewAnimePayload) -> (r: Result<ManifestWriteModel, LibraryError>)
    ensures
        payload_invalid(*payload) <==> r is Err,
        r is Err ==> r->Err_0 is Validation,
        r is Ok ==> model_for(*payload, false, r->Ok_0),
{
    prepare_manifest(payload, false)
}

/// A payload whose title is made of whitespace alone (or is empty) is
/// refused, whatever its other fields; one with a title holding any other
/// character and not declaring a finished work is accepted.
pub proof fn lemma_blank_title_refused(payload: NewAnimePayload)
    ensures
        (forall|i: int| 0 <= i < payload.title@.len() ==> is_space(#[trigger] payload.title@[i]))
            ==> payload_invalid(payload),
        (exists|i: int| 0 <= i < payload.title@.len() && !is_space(#[trigger] payload.title@[i]))
            && !payload.is_finished ==> !payload_invalid(payload),
{
    lemma_trim_empty_iff_blank(payload.title@);
}

} // verus!
