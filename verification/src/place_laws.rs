//! What holds of every path that is looked up.
use vstd::prelude::*;
use vstd::utf8::encode_utf8;

use crate::paths::{
    below, chosen_font, colon_parts, font_candidates, font_view, maybe_bytes, named_below,
    path_views, state_dir, state_file, system_applications, user_applications, Environment,
    EnvironmentView, FontError, FontErrorView,
};

verus! {

/// A part that starts with a slash stands alone. Any other follows the base: at once where the base
/// is empty or ends in a slash, and else after a slash.
pub proof fn lemma_below_base(base: Seq<u8>, part: Seq<u8>, name: Seq<char>)
    ensures
        part.len() > 0 && part[0] == 0x2f ==> below(base, part) == part,
        !(part.len() > 0 && part[0] == 0x2f) && (base.len() == 0 || base[base.len() - 1] == 0x2f)
            ==> below(base, part) == base + part,
        !(part.len() > 0 && part[0] == 0x2f) && base.len() > 0 && base[base.len() - 1] != 0x2f
            ==> below(base, part) == base + seq![0x2fu8] + part,
        named_below(base, name) == below(base, encode_utf8(name)),
{
    assert(base.push(0x2f) + part =~= base + seq![0x2fu8] + part);
}

/// State lies where `XDG_STATE_HOME` says, whatever else is set; else in `.local/state` below the
/// home directory; and else at the given place. The files of this program lie in a directory of
/// their own there.
pub proof fn lemma_state_places(
    environment: EnvironmentView,
    dir: Seq<u8>,
    otherwise: Seq<char>,
    name: Seq<char>,
)
    ensures
        environment.xdg_state_home == Some(dir) ==> state_dir(environment, otherwise) == dir,
        environment.xdg_state_home is None && environment.home == Some(dir) ==> state_dir(
            environment,
            otherwise,
        ) == below(dir, encode_utf8(".local/state"@)),
        environment.xdg_state_home is None && environment.home is None ==> state_dir(
            environment,
            otherwise,
        ) == encode_utf8(otherwise),
        state_file(environment, name) == below(
            below(state_dir(environment, ".jofi-state"@), encode_utf8("jofi"@)),
            encode_utf8(name),
        ),
{
}

/// The user's applications lie below `XDG_DATA_HOME`, whatever else is set; else in
/// `.local/share/applications` below the home directory; and else nowhere.
pub proof fn lemma_user_places(environment: EnvironmentView, dir: Seq<u8>)
    ensures
        environment.xdg_data_home == Some(dir) ==> user_applications(environment) == seq![
            below(dir, encode_utf8("applications"@)),
        ],
        environment.xdg_data_home is None && environment.home == Some(dir) ==> user_applications(
            environment,
        ) == seq![below(dir, encode_utf8(".local/share/applications"@))],
        environment.xdg_data_home is None && environment.home is None ==> user_applications(
            environment,
        ) == Seq::<Seq<u8>>::empty(),
{
}

/// The system's applications lie below each directory of `XDG_DATA_DIRS`, in its order; where that
/// is not set, in two places of their own.
pub proof fn lemma_system_places(environment: EnvironmentView, list: Seq<u8>)
    ensures
        environment.xdg_data_dirs == Some(list) ==> {
            &&& system_applications(environment).len() == colon_parts(list).len()
            &&& forall|i: int|
                0 <= i < colon_parts(list).len() ==> #[trigger] system_applications(environment)[i]
                    == below(colon_parts(list)[i], encode_utf8("applications"@))
        },
        environment.xdg_data_dirs is None ==> system_applications(environment) == seq![
            encode_utf8("/usr/local/share/applications"@),
            encode_utf8("/usr/share/applications"@),
        ],
{
}

/// A list without a colon is one part; a colon ends a part, and the parts after it follow.
pub proof fn lemma_colon_split(before: Seq<u8>, after: Seq<u8>)
    requires
        !before.contains(0x3a),
    ensures
        colon_parts(before) == seq![before],
        colon_parts(before + seq![0x3au8] + after) == seq![before] + colon_parts(after),
    decreases before.len() + after.len(),
{
    let whole = before + seq![0x3au8] + after;
    if before.len() > 0 {
        let head = before.drop_last();
        assert forall|k: int| 0 <= k < head.len() implies head[k] != 0x3a by {
            assert(before.contains(before[k]));
        }
        assert(before.contains(before[before.len() - 1]));
        if after.len() > 0 {
            lemma_colon_split(before, after.drop_last());
        } else {
            lemma_colon_split(head, after);
            assert(head.push(before.last()) =~= before);
        }
        lemma_colon_split(head, seq![]);
        assert(head.push(before.last()) =~= before);
        assert(colon_parts(before) =~= seq![before]);
    } else {
        assert(before =~= seq![]);
        assert(colon_parts(before) =~= seq![before]);
        if after.len() > 0 {
            lemma_colon_split(before, after.drop_last());
        }
    }
    if after.len() == 0 {
        assert(whole.drop_last() =~= before);
        assert(colon_parts(after) =~= seq![seq![]]);
        assert(colon_parts(whole) =~= seq![before] + colon_parts(after));
    } else {
        assert(whole.drop_last() =~= before + seq![0x3au8] + after.drop_last());
        let rest = colon_parts(after.drop_last());
        crate::paths::lemma_colon_parts(after.drop_last());
        assert(colon_parts(whole.drop_last()) =~= seq![before] + rest);
        assert((seq![before] + rest).last() == rest.last());
        assert((seq![before] + rest).drop_last() =~= seq![before] + rest.drop_last());
        assert(colon_parts(whole) =~= seq![before] + colon_parts(after));
    }
}

/// A font is looked for where it is configured, and nowhere else: by the option, or else by the
/// variable. Where none is configured, the known fonts are looked for, in this order.
pub proof fn lemma_font_places(
    configured: Option<Seq<u8>>,
    environment: EnvironmentView,
    path: Seq<u8>,
)
    ensures
        configured == Some(path) ==> font_candidates(configured, environment) == seq![path],
        configured is None && environment.jofi_font == Some(path) ==> font_candidates(
            configured,
            environment,
        ) == seq![path],
        configured is None && environment.jofi_font is None ==> font_candidates(
            configured,
            environment,
        ) == seq![
            encode_utf8("/usr/share/fonts/TTF/JetBrainsMonoNerdFont-Regular.ttf"@),
            encode_utf8("/usr/share/fonts/TTF/JetBrainsMonoNerdFontMono-Regular.ttf"@),
            encode_utf8("/usr/share/fonts/TTF/JetBrainsMonoNLNerdFont-Regular.ttf"@),
            encode_utf8("/usr/share/fonts/TTF/JetBrainsMono-Regular.ttf"@),
            encode_utf8("/usr/share/fonts/TTF/JetBrainsMonoNerdFont-Light.ttf"@),
            encode_utf8("/usr/share/fonts/noto/NotoSansMono-Regular.ttf"@),
            encode_utf8("/usr/share/fonts/TTF/DejaVuSansMono.ttf"@),
            encode_utf8("/usr/share/fonts/TTF/DejaVuSans.ttf"@),
        ],
{
    if configured is None && environment.jofi_font is None {
        assert(font_candidates(configured, environment) =~= seq![
            encode_utf8("/usr/share/fonts/TTF/JetBrainsMonoNerdFont-Regular.ttf"@),
            encode_utf8("/usr/share/fonts/TTF/JetBrainsMonoNerdFontMono-Regular.ttf"@),
            encode_utf8("/usr/share/fonts/TTF/JetBrainsMonoNLNerdFont-Regular.ttf"@),
            encode_utf8("/usr/share/fonts/TTF/JetBrainsMono-Regular.ttf"@),
            encode_utf8("/usr/share/fonts/TTF/JetBrainsMonoNerdFont-Light.ttf"@),
            encode_utf8("/usr/share/fonts/noto/NotoSansMono-Regular.ttf"@),
            encode_utf8("/usr/share/fonts/TTF/DejaVuSansMono.ttf"@),
            encode_utf8("/usr/share/fonts/TTF/DejaVuSans.ttf"@),
        ]);
    }
}

/// Where no candidate is a file, a configured font is named as not being one; where none is
/// configured, none was found.
pub proof fn lemma_no_font(
    configured: Option<Seq<u8>>,
    environment: EnvironmentView,
    is_file: Seq<bool>,
    path: Seq<u8>,
)
    requires
        is_file.len() == font_candidates(configured, environment).len(),
        !is_file.contains(true),
    ensures
        configured == Some(path) ==> chosen_font(configured, environment, is_file) == Err::<
            Seq<u8>,
            FontErrorView,
        >(FontErrorView::NotAFile(path)),
        configured is None && environment.jofi_font == Some(path) ==> chosen_font(
            configured,
            environment,
            is_file,
        ) == Err::<Seq<u8>, FontErrorView>(FontErrorView::NotAFile(path)),
        configured is None && environment.jofi_font is None ==> chosen_font(
            configured,
            environment,
            is_file,
        ) == Err::<Seq<u8>, FontErrorView>(FontErrorView::NoneFound),
{
    crate::paths::lemma_chosen_font(configured, environment, is_file);
}

/// What the models of an environment, of paths and of fonts hold: all of their parts.
pub proof fn lemma_place_models(
    environment: Environment,
    paths: Seq<Vec<u8>>,
    path: Vec<u8>,
    error: FontError,
)
    ensures
        environment@.home == maybe_bytes(environment.home),
        environment@.xdg_state_home == maybe_bytes(environment.xdg_state_home),
        environment@.xdg_data_home == maybe_bytes(environment.xdg_data_home),
        environment@.xdg_data_dirs == maybe_bytes(environment.xdg_data_dirs),
        environment@.jofi_font == maybe_bytes(environment.jofi_font),
        maybe_bytes(Some(path)) == Some(path@),
        maybe_bytes(None) is None,
        path_views(paths).len() == paths.len(),
        forall|i: int| 0 <= i < paths.len() ==> #[trigger] path_views(paths)[i] == paths[i]@,
        font_view(Ok(path)) == Ok::<Seq<u8>, FontErrorView>(path@),
        font_view(Err(error)) == Err::<Seq<u8>, FontErrorView>(error@),
        match error {
            FontError::NotAFile { path } => error@ == FontErrorView::NotAFile(path@),
            FontError::NoneFound => error@ == FontErrorView::NoneFound,
        },
{
}

} // verus!
