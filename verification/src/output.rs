//! The encoders: what each makes of the descriptor, and under which path.
//!
//! An encoder says what is to be written. The binary form is made here, to
//! the byte. Structured text and rendered templates are made by a
//! serializer and a template engine outside this library: for those an
//! encoder names the work, and the text that comes of it is finished by
//! `crate::text::finish_text` before it is written.

use crate::atlas::{AtlasView, PackerAtlas};
use crate::binary::{binary_form, encodable, encode_binary};
use crate::config::{Config, OutputType, TemplatePath};
use crate::error::PackerError;
use crate::paths::{
    extension, extension_of, join, join_paths, parent, parent_of, replace_extension,
    with_extension,
};
use crate::sheet::{base_of, base_path};
use crate::text::TextKind;
use vstd::prelude::*;

verus! {

/// What is to be done to have an artifact.
pub enum Work {
    /// These bytes are written as they are.
    Write(Vec<u8>),
    /// The descriptor is serialised as structured text of this kind, and
    /// the text is finished and written.
    Serialize(TextKind),
    /// The template at this path is rendered against the descriptor and the
    /// request, and the text is finished as a template and written.
    Render(String),
}

/// The mathematical value of a `Work`.
pub enum WorkView {
    Write(Seq<u8>),
    Serialize(TextKind),
    Render(Seq<char>),
}

impl View for Work {
    type V = WorkView;

    open spec fn view(&self) -> WorkView {
        match self {
            Work::Write(bytes) => WorkView::Write(bytes@),
            Work::Serialize(kind) => WorkView::Serialize(*kind),
            Work::Render(template) => WorkView::Render(template@),
        }
    }
}

/// One file of the build's output: where it goes and how it is made.
pub struct Artifact {
    pub path: String,
    pub work: Work,
}

/// The mathematical value of an `Artifact`.
pub struct ArtifactView {
    pub path: Seq<char>,
    pub work: WorkView,
}

impl View for Artifact {
    type V = ArtifactView;

    open spec fn view(&self) -> ArtifactView {
        ArtifactView { path: self.path@, work: self.work@ }
    }
}

/// The mathematical value of what an encoder returns.
pub open spec fn outcome(r: Result<Vec<Artifact>, PackerError>) -> Result<
    Seq<ArtifactView>,
    PackerError,
> {
    match r {
        Ok(artifacts) => Ok(artifacts@.map_values(|a: Artifact| a@)),
        Err(e) => Err(e),
    }
}

/// The extension of an encoding.
pub open spec fn kind_extension(kind: OutputType) -> Seq<char> {
    match kind {
        OutputType::Json => seq!['j', 's', 'o', 'n'],
        OutputType::Binary => seq!['b', 'i', 'n'],
        OutputType::Ron => seq!['r', 'o', 'n'],
        OutputType::Toml => seq!['t', 'o', 'm', 'l'],
    }
}

/// The artifact of an encoding of the descriptor: the base path with the
/// encoding's extension; for the binary encoding its bytes, for the others
/// the serialising that is to be done.
pub open spec fn encoding(kind: OutputType, path: Seq<char>, atlas: AtlasView, nine_patch: bool)
    -> ArtifactView {
    ArtifactView {
        path: with_extension(path, kind_extension(kind)),
        work: match kind {
            OutputType::Json => WorkView::Serialize(TextKind::Json),
            OutputType::Binary => WorkView::Write(binary_form(atlas, nine_patch)),
            OutputType::Ron => WorkView::Serialize(TextKind::Ron),
            OutputType::Toml => WorkView::Serialize(TextKind::Toml),
        },
    }
}

/// The templates of a request, in order.
pub open spec fn template_list(templates: TemplatePath) -> Seq<Seq<char>> {
    match templates {
        TemplatePath::Single(template) => seq![template@],
        TemplatePath::Multiple(list) => list@.map_values(|template: String| template@),
    }
}

/// Where a template is read: as it is named, or, where the request was read
/// from a file, as seen from the directory of that file.
pub open spec fn template_file(template: Seq<char>, request_file: Option<Seq<char>>) -> Seq<char> {
    match request_file {
        Some(file) => match parent(file) {
            Some(directory) => join(directory, template),
            None => template,
        },
        None => template,
    }
}

/// Where a rendered template is written: the base path with the extension
/// of the template, or with none where the template has none.
pub open spec fn template_target(path: Seq<char>, file: Seq<char>) -> Seq<char> {
    with_extension(
        path,
        match extension(file) {
            Some(ext) => ext,
            None => Seq::empty(),
        },
    )
}

/// The artifact of one template.
pub open spec fn rendering(path: Seq<char>, template: Seq<char>, request_file: Option<Seq<char>>)
    -> ArtifactView {
    ArtifactView {
        path: template_target(path, template_file(template, request_file)),
        work: WorkView::Render(template_file(template, request_file)),
    }
}

/// The artifacts of the templates, one each, in order; the failure
/// `NoTemplateFile` where there is no template.
pub open spec fn renderings(
    path: Seq<char>,
    templates: Seq<Seq<char>>,
    request_file: Option<Seq<char>>,
) -> Result<Seq<ArtifactView>, PackerError> {
    if templates.len() == 0 {
        Err(PackerError::NoTemplateFile)
    } else {
        Ok(templates.map_values(|template: Seq<char>| rendering(path, template, request_file)))
    }
}

/// An encoder of the descriptor.
pub trait Output {
    /// What the encoder makes of the descriptor, for a build whose base
    /// path is `path`.
    spec fn planned(&self, path: Seq<char>, atlas: AtlasView) -> Result<
        Seq<ArtifactView>,
        PackerError,
    >;

    /// Makes the artifacts of the descriptor.
    fn out(&self, path: &str, atlas: &PackerAtlas) -> (r: Result<Vec<Artifact>, PackerError>)
        ensures
            outcome(r) == self.planned(path@, atlas@),
    ;
}

/// The JSON encoder.
#[derive(Debug, Clone, Copy)]
pub struct JsonOutput;

/// The RON encoder.
#[derive(Debug, Clone, Copy)]
pub struct RonOutput;

/// The TOML encoder.
#[derive(Debug, Clone, Copy)]
pub struct TomlOutput;

/// The binary encoder. The request says whether stretch regions are
/// written. A descriptor that has no binary form makes it fail.
pub struct BinaryOutput<'a>(pub &'a Config);

/// The template encoder: the request, its templates, and the file that the
/// request was read from, if it was read from one.
pub struct TemplateOutput<'a>(pub &'a Config, pub &'a TemplatePath, pub &'a Option<String>);

impl Default for JsonOutput {
    fn default() -> (r: Self)
        ensures
            r == JsonOutput,
    {
        JsonOutput
    }
}

impl Default for RonOutput {
    fn default() -> (r: Self)
        ensures
            r == RonOutput,
    {
        RonOutput
    }
}

impl Default for TomlOutput {
    fn default() -> (r: Self)
        ensures
            r == TomlOutput,
    {
        TomlOutput
    }
}

/// One artifact, alone.
fn single(path: String, work: Work) -> (r: Vec<Artifact>)
    ensures
        r@.map_values(|a: Artifact| a@) == seq![(ArtifactView { path: path@, work: work@ })],
{
    let mut r: Vec<Artifact> = Vec::new();
    r.push(Artifact { path, work });
    assert(r@.map_values(|a: Artifact| a@) =~= seq![(ArtifactView { path: path@, work: work@ })]);
    r
}

impl Output for JsonOutput {
    open spec fn planned(&self, path: Seq<char>, atlas: AtlasView) -> Result<
        Seq<ArtifactView>,
        PackerError,
    > {
        Ok(seq![encoding(OutputType::Json, path, atlas, false)])
    }

    fn out(&self, path: &str, atlas: &PackerAtlas) -> (r: Result<Vec<Artifact>, PackerError>) {
        proof {
            reveal_strlit("json");
            assert("json"@ =~= kind_extension(OutputType::Json));
        }
        Ok(single(replace_extension(path, "json"), Work::Serialize(TextKind::Json)))
    }
}

impl Output for RonOutput {
    open spec fn planned(&self, path: Seq<char>, atlas: AtlasView) -> Result<
        Seq<ArtifactView>,
        PackerError,
    > {
        Ok(seq![encoding(OutputType::Ron, path, atlas, false)])
    }

    fn out(&self, path: &str, atlas: &PackerAtlas) -> (r: Result<Vec<Artifact>, PackerError>) {
        proof {
            reveal_strlit("ron");
            assert("ron"@ =~= kind_extension(OutputType::Ron));
        }
        Ok(single(replace_extension(path, "ron"), Work::Serialize(TextKind::Ron)))
    }
}

impl Output for TomlOutput {
    open spec fn planned(&self, path: Seq<char>, atlas: AtlasView) -> Result<
        Seq<ArtifactView>,
        PackerError,
    > {
        Ok(seq![encoding(OutputType::Toml, path, atlas, false)])
    }

    fn out(&self, path: &str, atlas: &PackerAtlas) -> (r: Result<Vec<Artifact>, PackerError>) {
        proof {
            reveal_strlit("toml");
            assert("toml"@ =~= kind_extension(OutputType::Toml));
        }
        Ok(single(replace_extension(path, "toml"), Work::Serialize(TextKind::Toml)))
    }
}

impl<'a> Output for BinaryOutput<'a> {
    open spec fn planned(&self, path: Seq<char>, atlas: AtlasView) -> Result<
        Seq<ArtifactView>,
        PackerError,
    > {
        if encodable(atlas) {
            Ok(seq![encoding(OutputType::Binary, path, atlas, self.0.features.nine_patch)])
        } else {
            Err(PackerError::Serialization)
        }
    }

    fn out(&self, path: &str, atlas: &PackerAtlas) -> (r: Result<Vec<Artifact>, PackerError>) {
        proof {
            reveal_strlit("bin");
            assert("bin"@ =~= kind_extension(OutputType::Binary));
        }
        match encode_binary(atlas, self.0.features.nine_patch) {
            Ok(bytes) => Ok(single(replace_extension(path, "bin"), Work::Write(bytes))),
            Err(e) => Err(e),
        }
    }
}

/// The file that a request was read from, as a mathematical value.
pub open spec fn file_view(request_file: Option<String>) -> Option<Seq<char>> {
    match request_file {
        Some(f) => Some(f@),
        None => None,
    }
}

/// Gives the place where a template is read.
pub fn resolve_template(template: &str, request_file: &Option<String>) -> (file: String)
    ensures
        file@ == template_file(template@, file_view(*request_file)),
{
    match request_file {
        Some(f) => match parent_of(f.as_str()) {
            Some(directory) => join_paths(directory.as_str(), template),
            None => template.to_owned(),
        },
        None => template.to_owned(),
    }
}

/// The artifact of one template.
fn render_as(path: &str, template: &str, request_file: &Option<String>) -> (r: Artifact)
    ensures
        r@ == rendering(path@, template@, file_view(*request_file)),
{
    let file = resolve_template(template, request_file);
    let target = match extension_of(file.as_str()) {
        Some(ext) => replace_extension(path, ext.as_str()),
        None => replace_extension(path, ""),
    };
    proof {
        reveal_strlit("");
        assert(""@ =~= Seq::<char>::empty());
    }
    Artifact { path: target, work: Work::Render(file) }
}

impl<'a> Output for TemplateOutput<'a> {
    open spec fn planned(&self, path: Seq<char>, atlas: AtlasView) -> Result<
        Seq<ArtifactView>,
        PackerError,
    > {
        renderings(path, template_list(*self.1), file_view(*self.2))
    }

    fn out(&self, path: &str, atlas: &PackerAtlas) -> (r: Result<Vec<Artifact>, PackerError>) {
        let ghost templates = template_list(*self.1);
        let ghost input = file_view(*self.2);
        let mut r: Vec<Artifact> = Vec::new();
        match self.1 {
            TemplatePath::Single(template) => {
                r.push(render_as(path, template.as_str(), self.2));
                assert(r@.map_values(|a: Artifact| a@) =~= templates.map_values(
                    |template: Seq<char>| rendering(path@, template, input),
                ));
                Ok(r)
            },
            TemplatePath::Multiple(list) => {
                if list.len() == 0 {
                    return Err(PackerError::NoTemplateFile);
                }
                let mut i: usize = 0;
                while i < list.len()
                    invariant
                        i <= list@.len(),
                        templates == list@.map_values(|template: String| template@),
                        input == file_view(*self.2),
                        r@.map_values(|a: Artifact| a@) == templates.map_values(
                            |template: Seq<char>| rendering(path@, template, input),
                        ).take(i as int),
                    decreases list@.len() - i,
                {
                    let ghost before = r@.map_values(|a: Artifact| a@);
                    let made = render_as(path, list[i].as_str(), self.2);
                    assert(made@ == rendering(path@, templates[i as int], input));
                    r.push(made);
                    assert(r@.map_values(|a: Artifact| a@) =~= before.push(made@));
                    assert(r@.map_values(|a: Artifact| a@) =~= templates.map_values(
                        |template: Seq<char>| rendering(path@, template, input),
                    ).take(i as int + 1));
                    i += 1;
                }
                assert(r@.map_values(|a: Artifact| a@) =~= templates.map_values(
                    |template: Seq<char>| rendering(path@, template, input),
                ));
                Ok(r)
            },
        }
    }
}

/// Makes the artifacts of the descriptor with the encoder that its type has
/// by default.
pub fn save_output<T: Default + Output>(path: &str, atlas: &PackerAtlas) -> (r: Result<
    Vec<Artifact>,
    PackerError,
>)
    ensures
        exists|output: T|
            call_ensures(T::default, (), output) && outcome(r) == #[trigger] output.planned(
                path@,
                atlas@,
            ),
{
    let output = T::default();
    output.out(path, atlas)
}

/// Makes the artifacts of the descriptor with the given encoder.
pub fn save_output_from<T: Output>(output: T, path: &str, atlas: &PackerAtlas) -> (r: Result<
    Vec<Artifact>,
    PackerError,
>)
    ensures
        outcome(r) == output.planned(path@, atlas@),
{
    output.out(path, atlas)
}

/// The kinds of a list, each once, in the order in which they first come.
pub open spec fn distinct_kinds(kinds: Seq<OutputType>) -> Seq<OutputType>
    decreases kinds.len(),
{
    if kinds.len() == 0 {
        seq![]
    } else {
        let before = distinct_kinds(kinds.drop_last());
        if before.contains(kinds.last()) {
            before
        } else {
            before.push(kinds.last())
        }
    }
}

/// Listing a kind twice changes nothing: the kinds that are kept are those
/// that are listed, and none is kept twice.
pub proof fn lemma_distinct_kinds(kinds: Seq<OutputType>)
    ensures
        forall|kind: OutputType| #[trigger]
            distinct_kinds(kinds).contains(kind) <==> kinds.contains(kind),
        distinct_kinds(kinds).no_duplicates(),
    decreases kinds.len(),
{
    if kinds.len() > 0 {
        let before = distinct_kinds(kinds.drop_last());
        let last = kinds.last();
        lemma_distinct_kinds(kinds.drop_last());
        assert forall|kind: OutputType| #[trigger]
            distinct_kinds(kinds).contains(kind) <==> kinds.contains(kind) by {
            if distinct_kinds(kinds).contains(kind) {
                if kind == last {
                    assert(kinds[kinds.len() - 1] == kind);
                } else {
                    let i = choose|i: int|
                        0 <= i < distinct_kinds(kinds).len() && distinct_kinds(kinds)[i] == kind;
                    assert(before[i] == kind);
                    assert(before.contains(kind));
                    let j = choose|j: int|
                        0 <= j < kinds.drop_last().len() && kinds.drop_last()[j] == kind;
                    assert(kinds[j] == kind);
                }
            }
            if kinds.contains(kind) {
                let j = choose|j: int| 0 <= j < kinds.len() && kinds[j] == kind;
                if j < kinds.len() - 1 {
                    assert(kinds.drop_last()[j] == kind);
                    assert(before.contains(kind));
                    let i = choose|i: int| 0 <= i < before.len() && before[i] == kind;
                    assert(distinct_kinds(kinds)[i] == kind);
                } else if before.contains(last) {
                } else {
                    assert(distinct_kinds(kinds)[before.len() as int] == kind);
                }
            }
        }
    }
}

/// The encodings that a request asks for: those it lists, each once, where
/// it allows them at all.
pub open spec fn requested(config: Config) -> Seq<OutputType> {
    if config.allow_normal_output {
        distinct_kinds(config.output_types@)
    } else {
        seq![]
    }
}

/// Gives the encodings that a request asks for.
pub fn requested_kinds(config: &Config) -> (kinds: Vec<OutputType>)
    ensures
        kinds@ == requested(*config),
{
    let mut kinds: Vec<OutputType> = Vec::new();
    if !config.allow_normal_output {
        return kinds;
    }
    let mut i: usize = 0;
    while i < config.output_types.len()
        invariant
            i <= config.output_types@.len(),
            kinds@ == distinct_kinds(config.output_types@.take(i as int)),
        decreases config.output_types@.len() - i,
    {
        let kind = config.output_types[i];
        let mut found = false;
        let mut j: usize = 0;
        while j < kinds.len()
            invariant
                j <= kinds@.len(),
                found == exists|k: int| 0 <= k < j && kinds@[k] == kind,
            decreases kinds@.len() - j,
        {
            if kinds[j] == kind {
                found = true;
            }
            j += 1;
        }
        assert(found == kinds@.contains(kind));
        assert(config.output_types@.take(i as int + 1).drop_last() =~= config.output_types@.take(
            i as int,
        ));
        if !found {
            kinds.push(kind);
        }
        i += 1;
    }
    assert(config.output_types@.take(config.output_types@.len() as int)
        =~= config.output_types@);
    kinds
}

/// The artifacts of the templates of a request: none where it names no
/// templates.
pub open spec fn template_part(config: Config, request_file: Option<Seq<char>>) -> Result<
    Seq<ArtifactView>,
    PackerError,
> {
    match config.template_path {
        Some(templates) => renderings(base_of(config), template_list(templates), request_file),
        None => Ok(seq![]),
    }
}

/// The artifacts of the encodings that a request asks for, where all of
/// them can be made.
pub open spec fn encoding_part(config: Config, atlas: AtlasView) -> Seq<ArtifactView> {
    requested(config).map_values(
        |kind: OutputType| encoding(kind, base_of(config), atlas, config.features.nine_patch),
    )
}

/// The binary encoding is asked for, and the descriptor has no binary form.
pub open spec fn binary_fails(config: Config, atlas: AtlasView) -> bool {
    requested(config).contains(OutputType::Binary) && !encodable(atlas)
}

/// Everything that a build writes beside the sheet: the rendered templates,
/// then the encodings. Where templates are asked for and none is named, the
/// failure `NoTemplateFile`; else, where the binary encoding is asked for
/// and the descriptor has no binary form, the failure `Serialization`.
pub open spec fn plan(config: Config, request_file: Option<Seq<char>>, atlas: AtlasView) -> Result<
    Seq<ArtifactView>,
    PackerError,
> {
    match template_part(config, request_file) {
        Ok(rendered) => if binary_fails(config, atlas) {
            Err(PackerError::Serialization)
        } else {
            Ok(rendered + encoding_part(config, atlas))
        },
        Err(e) => Err(e),
    }
}

/// Plans everything that a build writes beside the sheet.
pub fn plan_outputs(config: &Config, request_file: &Option<String>, atlas: &PackerAtlas) -> (r:
    Result<Vec<Artifact>, PackerError>)
    ensures
        outcome(r) == plan(*config, file_view(*request_file), atlas@),
{
    let base = base_path(config);
    let ghost nine_patch = config.features.nine_patch;
    let mut all: Vec<Artifact> = match &config.template_path {
        Some(templates) => match save_output_from(
            TemplateOutput(config, templates, request_file),
            base.as_str(),
            atlas,
        ) {
            Ok(rendered) => rendered,
            Err(e) => {
                return Err(e);
            },
        },
        None => Vec::new(),
    };
    let ghost rendered = all@.map_values(|a: Artifact| a@);
    assert(template_part(*config, file_view(*request_file)) == Ok::<_, PackerError>(rendered)) by {
        if config.template_path is None {
            assert(rendered =~= seq![]);
        }
    }
    let kinds = requested_kinds(config);
    let ghost wanted = encoding_part(*config, atlas@);
    let mut i: usize = 0;
    while i < kinds.len()
        invariant
            i <= kinds@.len(),
            kinds@ == requested(*config),
            base@ == base_of(*config),
            nine_patch == config.features.nine_patch,
            wanted == encoding_part(*config, atlas@),
            template_part(*config, file_view(*request_file)) == Ok::<_, PackerError>(rendered),
            forall|j: int| 0 <= j < i && kinds@[j] == OutputType::Binary ==> encodable(atlas@),
            all@.map_values(|a: Artifact| a@) == rendered + wanted.take(i as int),
        decreases kinds@.len() - i,
    {
        let kind = kinds[i];
        let made = match kind {
            OutputType::Json => save_output::<JsonOutput>(base.as_str(), atlas),
            OutputType::Binary => save_output_from(BinaryOutput(config), base.as_str(), atlas),
            OutputType::Ron => save_output::<RonOutput>(base.as_str(), atlas),
            OutputType::Toml => save_output::<TomlOutput>(base.as_str(), atlas),
        };
        let mut made = match made {
            Ok(made) => made,
            Err(e) => {
                assert(kind == OutputType::Binary && !encodable(atlas@));
                assert(kinds@[i as int] == OutputType::Binary);
                assert(binary_fails(*config, atlas@));
                return Err(e);
            },
        };
        assert(made@.map_values(|a: Artifact| a@) == seq![
            encoding(kind, base@, atlas@, nine_patch),
        ]);
        let ghost before = all@.map_values(|a: Artifact| a@);
        all.append(&mut made);
        assert(all@.map_values(|a: Artifact| a@) =~= before + seq![
            encoding(kind, base@, atlas@, nine_patch),
        ]);
        assert(wanted.take(i as int + 1) =~= wanted.take(i as int).push(wanted[i as int]));
        assert(all@.map_values(|a: Artifact| a@) =~= rendered + wanted.take(i as int + 1));
        i += 1;
    }
    assert(wanted.take(kinds@.len() as int) =~= wanted);
    assert(!binary_fails(*config, atlas@)) by {
        if requested(*config).contains(OutputType::Binary) {
            let j = choose|j: int| 0 <= j < kinds@.len() && kinds@[j] == OutputType::Binary;
            assert(kinds@[j] == OutputType::Binary);
        }
    }
    Ok(all)
}

} // verus!
