//! Where things are. Paths are bytes, as the operating system has them.
use vstd::prelude::*;
use vstd::utf8::encode_utf8;

verus! {

/// The environment variables that say where things are.
#[derive(Debug)]
pub struct Environment {
    /// `HOME`.
    pub home: Option<Vec<u8>>,
    /// `XDG_STATE_HOME`.
    pub xdg_state_home: Option<Vec<u8>>,
    /// `XDG_DATA_HOME`.
    pub xdg_data_home: Option<Vec<u8>>,
    /// `XDG_DATA_DIRS`.
    pub xdg_data_dirs: Option<Vec<u8>>,
    /// `JOFI_FONT`.
    pub jofi_font: Option<Vec<u8>>,
}

/// The model of an [`Environment`].
#[verifier::ext_equal]
pub struct EnvironmentView {
    pub home: Option<Seq<u8>>,
    pub xdg_state_home: Option<Seq<u8>>,
    pub xdg_data_home: Option<Seq<u8>>,
    pub xdg_data_dirs: Option<Seq<u8>>,
    pub jofi_font: Option<Seq<u8>>,
}

/// The model of bytes that may be missing.
pub open spec fn maybe_bytes(bytes: Option<Vec<u8>>) -> Option<Seq<u8>> {
    match bytes {
        Some(bytes) => Some(bytes@),
        None => None,
    }
}

impl View for Environment {
    type V = EnvironmentView;

    open spec fn view(&self) -> EnvironmentView {
        EnvironmentView {
            home: maybe_bytes(self.home),
            xdg_state_home: maybe_bytes(self.xdg_state_home),
            xdg_data_home: maybe_bytes(self.xdg_data_home),
            xdg_data_dirs: maybe_bytes(self.xdg_data_dirs),
            jofi_font: maybe_bytes(self.jofi_font),
        }
    }
}

/// The models of a list of paths.
pub open spec fn path_views(paths: Seq<Vec<u8>>) -> Seq<Seq<u8>> {
    Seq::new(paths.len(), |i: int| paths[i]@)
}

// ---------------------------------------------------------------------------------------------
// Paths
// ---------------------------------------------------------------------------------------------

/// The path of `part` below `base`, with one separator between them. An absolute part stands
/// alone.
pub open spec fn below(base: Seq<u8>, part: Seq<u8>) -> Seq<u8> {
    if part.len() > 0 && part[0] == 0x2f {
        part
    } else if base.len() > 0 && base.last() != 0x2f {
        base.push(0x2f) + part
    } else {
        base + part
    }
}

/// The path of the named part below `base`.
pub open spec fn named_below(base: Seq<u8>, part: Seq<char>) -> Seq<u8> {
    below(base, encode_utf8(part))
}

fn push_bytes(out: &mut Vec<u8>, bytes: &[u8])
    ensures
        final(out)@ == old(out)@ + bytes@,
{
    let ghost before = out@;
    let mut i: usize = 0;
    assert(out@ =~= before + bytes@.take(0));
    while i < bytes.len()
        invariant
            i <= bytes@.len(),
            out@ == before + bytes@.take(i as int),
        decreases bytes@.len() - i,
    {
        out.push(bytes[i]);
        i += 1;
        assert(out@ =~= before + bytes@.take(i as int));
    }
    assert(bytes@.take(i as int) =~= bytes@);
}

/// A copy of some bytes.
pub fn copy_bytes(bytes: &[u8]) -> (res: Vec<u8>)
    ensures
        res@ == bytes@,
{
    let mut out: Vec<u8> = Vec::new();
    push_bytes(&mut out, bytes);
    assert(out@ =~= bytes@);
    out
}

/// The path of `part` below `base`, with one separator between them.
pub fn join_path(base: &[u8], part: &str) -> (res: Vec<u8>)
    ensures
        res@ == named_below(base@, part@),
{
    let bytes = part.as_bytes();
    if bytes.len() > 0 && bytes[0] == 0x2f {
        return copy_bytes(bytes);
    }
    let mut out: Vec<u8> = copy_bytes(base);
    if base.len() > 0 && base[base.len() - 1] != 0x2f {
        out.push(0x2f);
    }
    push_bytes(&mut out, bytes);
    out
}

/// The parts of a list of paths, which colons separate.
pub open spec fn colon_parts(list: Seq<u8>) -> Seq<Seq<u8>>
    decreases list.len(),
{
    if list.len() == 0 {
        seq![seq![]]
    } else {
        let before = colon_parts(list.drop_last());
        if list.last() == 0x3a {
            before.push(seq![])
        } else {
            before.drop_last().push(before.last().push(list.last()))
        }
    }
}

/// The parts of a list of paths, which colons separate.
pub fn split_paths(list: &[u8]) -> (res: Vec<Vec<u8>>)
    ensures
        path_views(res@) == colon_parts(list@),
{
    let mut out: Vec<Vec<u8>> = Vec::new();
    let mut part: Vec<u8> = Vec::new();
    let mut i: usize = 0;
    assert(list@.take(0) =~= seq![]);
    assert(path_views(out@).push(part@) =~= colon_parts(list@.take(0)));
    while i < list.len()
        invariant
            i <= list@.len(),
            path_views(out@).push(part@) == colon_parts(list@.take(i as int)),
        decreases list@.len() - i,
    {
        let ghost before = out@;
        let ghost old_part = part@;
        proof {
            let known = path_views(out@).push(part@);
            assert(list@.take(i + 1).drop_last() =~= list@.take(i as int));
            assert(known.drop_last() =~= path_views(out@));
            assert(known.last() == part@);
        }
        if list[i] == 0x3a {
            out.push(part);
            part = Vec::new();
            assert(path_views(out@) =~= path_views(before).push(old_part));
        } else {
            part.push(list[i]);
        }
        i += 1;
        assert(path_views(out@).push(part@) =~= colon_parts(list@.take(i as int)));
    }
    assert(list@.take(i as int) =~= list@);
    let ghost before = out@;
    out.push(part);
    assert(path_views(out@) =~= path_views(before).push(part@));
    out
}

// ---------------------------------------------------------------------------------------------
// State
// ---------------------------------------------------------------------------------------------

/// The directory for state: `XDG_STATE_HOME`, or else `.local/state` below `HOME`, or else
/// `otherwise`.
pub open spec fn state_dir(environment: EnvironmentView, otherwise: Seq<char>) -> Seq<u8> {
    match environment.xdg_state_home {
        Some(dir) => dir,
        None => match environment.home {
            Some(home) => named_below(home, ".local/state"@),
            None => encode_utf8(otherwise),
        },
    }
}

fn state_dir_or(environment: &Environment, otherwise: &str) -> (res: Vec<u8>)
    ensures
        res@ == state_dir(environment@, otherwise@),
{
    match &environment.xdg_state_home {
        Some(dir) => copy_bytes(dir.as_slice()),
        None => match &environment.home {
            Some(home) => join_path(home.as_slice(), ".local/state"),
            None => copy_bytes(otherwise.as_bytes()),
        },
    }
}

/// The directory for state: `XDG_STATE_HOME`, or else `.local/state` below `HOME`, or else
/// `.jofi-state`.
pub fn state_home(environment: &Environment) -> (res: Vec<u8>)
    ensures
        res@ == state_dir(environment@, ".jofi-state"@),
{
    state_dir_or(environment, ".jofi-state")
}

/// The path of a state file of this program.
pub open spec fn state_file(environment: EnvironmentView, name: Seq<char>) -> Seq<u8> {
    named_below(named_below(state_dir(environment, ".jofi-state"@), "jofi"@), name)
}

/// The path of the telemetry log.
pub fn default_telemetry_path(environment: &Environment) -> (res: Vec<u8>)
    ensures
        res@ == state_file(environment@, "telemetry.jsonl"@),
{
    let dir: Vec<u8> = join_path(state_home(environment).as_slice(), "jofi");
    join_path(dir.as_slice(), "telemetry.jsonl")
}

/// The path of the history file.
pub fn jofi_history_path(environment: &Environment) -> (res: Vec<u8>)
    ensures
        res@ == state_file(environment@, "history"@),
{
    let dir: Vec<u8> = join_path(state_home(environment).as_slice(), "jofi");
    join_path(dir.as_slice(), "history")
}

/// The path of the history file of `tofi`.
pub fn tofi_history_path(environment: &Environment) -> (res: Vec<u8>)
    ensures
        res@ == named_below(state_dir(environment@, ".local/state"@), "tofi-drun-history"@),
{
    join_path(state_dir_or(environment, ".local/state").as_slice(), "tofi-drun-history")
}

/// The path of the telemetry log for one run: none where telemetry is off, else the given one, else
/// the default.
pub fn telemetry_path(
    environment: &Environment,
    no_telemetry: bool,
    telemetry_log: Option<Vec<u8>>,
) -> (res: Option<Vec<u8>>)
    ensures
        maybe_bytes(res) == if no_telemetry {
            None
        } else {
            match telemetry_log {
                Some(path) => Some(path@),
                None => Some(state_file(environment@, "telemetry.jsonl"@)),
            }
        },
{
    if no_telemetry {
        None
    } else {
        match telemetry_log {
            Some(path) => Some(path),
            None => Some(default_telemetry_path(environment)),
        }
    }
}

// ---------------------------------------------------------------------------------------------
// Applications
// ---------------------------------------------------------------------------------------------

/// The applications directory of the user, if one is known.
pub open spec fn user_applications(environment: EnvironmentView) -> Seq<Seq<u8>> {
    match environment.xdg_data_home {
        Some(dir) => seq![named_below(dir, "applications"@)],
        None => match environment.home {
            Some(home) => seq![named_below(home, ".local/share/applications"@)],
            None => seq![],
        },
    }
}

/// The applications directories of the system.
pub open spec fn system_applications(environment: EnvironmentView) -> Seq<Seq<u8>> {
    match environment.xdg_data_dirs {
        Some(list) => colon_parts(list).map_values(
            |dir: Seq<u8>| named_below(dir, "applications"@),
        ),
        None => seq![
            encode_utf8("/usr/local/share/applications"@),
            encode_utf8("/usr/share/applications"@),
        ],
    }
}

/// The applications directories, the most important first: that of the user, then those of the
/// system.
pub fn applications_dirs(environment: &Environment) -> (res: Vec<Vec<u8>>)
    ensures
        path_views(res@) == user_applications(environment@) + system_applications(environment@),
{
    let mut dirs: Vec<Vec<u8>> = Vec::new();
    match &environment.xdg_data_home {
        Some(dir) => dirs.push(join_path(dir.as_slice(), "applications")),
        None => match &environment.home {
            Some(home) => dirs.push(join_path(home.as_slice(), ".local/share/applications")),
            None => {},
        },
    }
    let ghost user = path_views(dirs@);
    assert(user =~= user_applications(environment@));
    match &environment.xdg_data_dirs {
        Some(list) => {
            let parts: Vec<Vec<u8>> = split_paths(list.as_slice());
            let ghost system = system_applications(environment@);
            let mut i: usize = 0;
            assert(path_views(dirs@) =~= user + system.take(0));
            while i < parts.len()
                invariant
                    i <= parts@.len(),
                    parts@.len() == system.len(),
                    system == path_views(parts@).map_values(
                        |dir: Seq<u8>| named_below(dir, "applications"@),
                    ),
                    path_views(dirs@) == user + system.take(i as int),
                decreases parts@.len() - i,
            {
                let ghost before = dirs@;
                assert(path_views(parts@)[i as int] == parts@[i as int]@);
                let dir: Vec<u8> = join_path(parts[i].as_slice(), "applications");
                dirs.push(dir);
                i += 1;
                assert(path_views(dirs@) =~= path_views(before).push(system[i - 1]));
                assert(path_views(dirs@) =~= user + system.take(i as int));
            }
            assert(system.take(i as int) =~= system);
        },
        None => {
            dirs.push(copy_bytes("/usr/local/share/applications".as_bytes()));
            dirs.push(copy_bytes("/usr/share/applications".as_bytes()));
            assert(path_views(dirs@) =~= user + system_applications(environment@));
        },
    }
    dirs
}

// ---------------------------------------------------------------------------------------------
// Fonts
// ---------------------------------------------------------------------------------------------

/// The paths of the fonts that are looked for where none is configured, the best first.
pub open spec fn known_fonts() -> Seq<Seq<char>> {
    seq![
        "/usr/share/fonts/TTF/JetBrainsMonoNerdFont-Regular.ttf"@,
        "/usr/share/fonts/TTF/JetBrainsMonoNerdFontMono-Regular.ttf"@,
        "/usr/share/fonts/TTF/JetBrainsMonoNLNerdFont-Regular.ttf"@,
        "/usr/share/fonts/TTF/JetBrainsMono-Regular.ttf"@,
        "/usr/share/fonts/TTF/JetBrainsMonoNerdFont-Light.ttf"@,
        "/usr/share/fonts/noto/NotoSansMono-Regular.ttf"@,
        "/usr/share/fonts/TTF/DejaVuSansMono.ttf"@,
        "/usr/share/fonts/TTF/DejaVuSans.ttf"@,
    ]
}

/// The path of the font that is configured, by option or else by `JOFI_FONT`.
pub open spec fn configured_font(
    configured: Option<Seq<u8>>,
    environment: EnvironmentView,
) -> Option<Seq<u8>> {
    match configured {
        Some(path) => Some(path),
        None => environment.jofi_font,
    }
}

/// The paths at which a font is looked for: the configured one alone, or else the known ones.
pub open spec fn font_candidates(
    configured: Option<Seq<u8>>,
    environment: EnvironmentView,
) -> Seq<Seq<u8>> {
    match configured_font(configured, environment) {
        Some(path) => seq![path],
        None => known_fonts().map_values(|path: Seq<char>| encode_utf8(path)),
    }
}

fn push_font(out: &mut Vec<Vec<u8>>, path: &str)
    ensures
        path_views(final(out)@) == path_views(old(out)@).push(encode_utf8(path@)),
{
    let ghost before = out@;
    out.push(copy_bytes(path.as_bytes()));
    assert(path_views(out@) =~= path_views(before).push(encode_utf8(path@)));
}

/// The paths at which a font is looked for: the configured one alone, or else the known ones.
pub fn font_paths(configured: &Option<Vec<u8>>, environment: &Environment) -> (res: Vec<Vec<u8>>)
    ensures
        path_views(res@) == font_candidates(maybe_bytes(*configured), environment@),
{
    let mut out: Vec<Vec<u8>> = Vec::new();
    assert(path_views(out@) =~= seq![]);
    match configured {
        Some(path) => {
            out.push(copy_bytes(path.as_slice()));
            assert(path_views(out@) =~= seq![path@]);
        },
        None => match &environment.jofi_font {
            Some(path) => {
                out.push(copy_bytes(path.as_slice()));
                assert(path_views(out@) =~= seq![path@]);
            },
            None => {
                push_font(&mut out, "/usr/share/fonts/TTF/JetBrainsMonoNerdFont-Regular.ttf");
                push_font(&mut out, "/usr/share/fonts/TTF/JetBrainsMonoNerdFontMono-Regular.ttf");
                push_font(&mut out, "/usr/share/fonts/TTF/JetBrainsMonoNLNerdFont-Regular.ttf");
                push_font(&mut out, "/usr/share/fonts/TTF/JetBrainsMono-Regular.ttf");
                push_font(&mut out, "/usr/share/fonts/TTF/JetBrainsMonoNerdFont-Light.ttf");
                push_font(&mut out, "/usr/share/fonts/noto/NotoSansMono-Regular.ttf");
                push_font(&mut out, "/usr/share/fonts/TTF/DejaVuSansMono.ttf");
                push_font(&mut out, "/usr/share/fonts/TTF/DejaVuSans.ttf");
                assert(path_views(out@) =~= font_candidates(maybe_bytes(*configured), environment@));
            },
        },
    }
    out
}

/// Why there is no font.
#[derive(Debug)]
pub enum FontError {
    /// The configured font is not a file.
    NotAFile { path: Vec<u8> },
    /// None of the known fonts is there.
    NoneFound,
}

/// The model of a [`FontError`].
#[verifier::ext_equal]
pub enum FontErrorView {
    NotAFile(Seq<u8>),
    NoneFound,
}

impl View for FontError {
    type V = FontErrorView;

    open spec fn view(&self) -> FontErrorView {
        match self {
            FontError::NotAFile { path } => FontErrorView::NotAFile(path@),
            FontError::NoneFound => FontErrorView::NoneFound,
        }
    }
}

/// The model of a font path that may be missing.
pub open spec fn font_view(res: Result<Vec<u8>, FontError>) -> Result<Seq<u8>, FontErrorView> {
    match res {
        Ok(path) => Ok(path@),
        Err(error) => Err(error@),
    }
}

/// The first of some paths that is a file, from place `from` on.
pub open spec fn first_file(paths: Seq<Seq<u8>>, is_file: Seq<bool>, from: int) -> Option<Seq<u8>>
    decreases paths.len() - from,
{
    if from < 0 || from >= paths.len() {
        None
    } else if from < is_file.len() && is_file[from] {
        Some(paths[from])
    } else {
        first_file(paths, is_file, from + 1)
    }
}

/// The font to use, where `is_file` says of each candidate whether it is a file.
pub open spec fn chosen_font(
    configured: Option<Seq<u8>>,
    environment: EnvironmentView,
    is_file: Seq<bool>,
) -> Result<Seq<u8>, FontErrorView> {
    match first_file(font_candidates(configured, environment), is_file, 0) {
        Some(path) => Ok(path),
        None => match configured_font(configured, environment) {
            Some(path) => Err(FontErrorView::NotAFile(path)),
            None => Err(FontErrorView::NoneFound),
        },
    }
}

/// The font to use, where `is_file` says of each path of [`font_paths`] whether it is a file.
pub fn resolve_font_path(
    configured: Option<Vec<u8>>,
    environment: &Environment,
    is_file: &Vec<bool>,
) -> (res: Result<Vec<u8>, FontError>)
    ensures
        font_view(res) == chosen_font(maybe_bytes(configured), environment@, is_file@),
{
    let paths: Vec<Vec<u8>> = font_paths(&configured, environment);
    let ghost views = path_views(paths@);
    let mut i: usize = 0;
    while i < paths.len()
        invariant
            i <= paths@.len(),
            views == path_views(paths@),
            views == font_candidates(maybe_bytes(configured), environment@),
            first_file(views, is_file@, 0) == first_file(views, is_file@, i as int),
        decreases paths@.len() - i,
    {
        if i < is_file.len() && is_file[i] {
            assert(views[i as int] == paths@[i as int]@);
            return Ok(copy_bytes(paths[i].as_slice()));
        }
        i += 1;
    }
    match configured {
        Some(path) => Err(FontError::NotAFile { path }),
        None => match &environment.jofi_font {
            Some(path) => Err(FontError::NotAFile { path: copy_bytes(path.as_slice()) }),
            None => Err(FontError::NoneFound),
        },
    }
}

// ---------------------------------------------------------------------------------------------
// What holds of paths
// ---------------------------------------------------------------------------------------------

/// A relative part lies below the base: the base stands before it, and a separator between them
/// where the base is not empty.
pub proof fn lemma_below(base: Seq<u8>, part: Seq<u8>)
    requires
        part.len() > 0,
        part[0] != 0x2f,
    ensures
        below(base, part).take(base.len() as int) == base,
        below(base, part).skip(below(base, part).len() - part.len()) == part,
        base.len() > 0 ==> below(base, part)[below(base, part).len() - part.len() - 1] == 0x2f,
{
    let whole = below(base, part);
    assert(whole.take(base.len() as int) =~= base);
    assert(whole.skip(whole.len() - part.len()) =~= part);
}

/// Where a state directory is known, what is used otherwise plays no part: the files of both
/// programs lie below the same directory.
pub proof fn lemma_state_dir(environment: EnvironmentView, a: Seq<char>, b: Seq<char>)
    requires
        environment.xdg_state_home is Some || environment.home is Some,
    ensures
        state_dir(environment, a) == state_dir(environment, b),
{
}

/// The font that is chosen is a candidate that is a file, and no candidate before it is one.
pub proof fn lemma_chosen_font(
    configured: Option<Seq<u8>>,
    environment: EnvironmentView,
    is_file: Seq<bool>,
)
    requires
        is_file.len() == font_candidates(configured, environment).len(),
    ensures
        chosen_font(configured, environment, is_file) is Ok <==> is_file.contains(true),
        chosen_font(configured, environment, is_file) matches Ok(path) ==> exists|i: int|
            0 <= i < is_file.len() && #[trigger] is_file[i] && path == font_candidates(
                configured,
                environment,
            )[i] && forall|k: int| 0 <= k < i ==> !#[trigger] is_file[k],
{
    lemma_first_file(font_candidates(configured, environment), is_file, 0);
}

proof fn lemma_first_file(paths: Seq<Seq<u8>>, is_file: Seq<bool>, from: int)
    requires
        0 <= from <= paths.len(),
        is_file.len() == paths.len(),
        forall|k: int| 0 <= k < from ==> !#[trigger] is_file[k],
    ensures
        first_file(paths, is_file, from) is Some <==> is_file.contains(true),
        first_file(paths, is_file, from) matches Some(path) ==> exists|i: int|
            0 <= i < is_file.len() && #[trigger] is_file[i] && path == paths[i] && forall|k: int|
                0 <= k < i ==> !#[trigger] is_file[k],
    decreases paths.len() - from,
{
    if from < paths.len() {
        if is_file[from] {
            assert(is_file.contains(true));
        } else {
            lemma_first_file(paths, is_file, from + 1);
        }
    }
}

/// There is an applications directory of the system whatever the environment.
pub proof fn lemma_system_applications(environment: EnvironmentView)
    ensures
        system_applications(environment).len() > 0,
{
    if environment.xdg_data_dirs is Some {
        lemma_colon_parts(environment.xdg_data_dirs->0);
    }
}

/// A list of paths has one part more than it has colons.
pub proof fn lemma_colon_parts(list: Seq<u8>)
    ensures
        colon_parts(list).len() == 1 + list.filter(|byte: u8| byte == 0x3a).len(),
    decreases list.len(),
{
    reveal(Seq::filter);
    if list.len() > 0 {
        lemma_colon_parts(list.drop_last());
    }
}

} // verus!
