use crate::text::{
    lemma_split_prefix_nonempty, parse_index, parse_index_bytes, split, split_bytes, texts, trim,
    trim_bytes,
};
use vstd::prelude::*;
use vstd::slice::slice_to_vec;
use vstd::string::StringSliceAdditionalSpecFns;

verus! {

/// One corner of a face record: a vertex index and a vertex-normal index, both counted from 1;
/// a normal index of 0 stands for no normal.
#[derive(Clone, Copy, Debug, PartialEq, Eq, Structural)]
pub struct FaceVertex {
    pub vertex: usize,
    pub normal: usize,
}

/// A triangle of a face, as indices into the vertex and vertex-normal records (from 1).
/// It is smooth when its first corner names a normal.
#[derive(Clone, Copy, Debug, PartialEq, Eq, Structural)]
pub struct ObjTriangle {
    pub v1: usize,
    pub v2: usize,
    pub v3: usize,
    pub n1: usize,
    pub n2: usize,
    pub n3: usize,
}

/// A named group of triangles.
pub struct ObjGroup {
    pub name: Vec<u8>,
    pub triangles: Vec<ObjTriangle>,
}

/// Why a model file was rejected.
#[derive(Clone, Copy, Debug, PartialEq, Eq, Structural)]
pub enum ObjError {
    /// A face corner whose vertex or normal index is not an unsigned integer.
    BadIndex,
    /// A face corner that names a vertex or a normal not yet read.
    IndexOutOfRange,
    /// A vertex or normal record with fewer than three coordinates.
    MissingCoordinates,
    /// A group record without a name.
    MissingGroupName,
}

/// A parsed model file. Coordinates are kept as the text that the file gives them in.
pub struct ObjParser {
    pub lines_ignored: usize,
    pub vertices: Vec<Vec<Vec<u8>>>,
    pub normals: Vec<Vec<Vec<u8>>>,
    pub default_group: Vec<ObjTriangle>,
    pub groups: Vec<ObjGroup>,
    pub current_group: Option<usize>,
}

/// The mathematical content of an `ObjParser`.
pub struct ObjModel {
    pub lines_ignored: nat,
    pub vertices: Seq<Seq<Seq<u8>>>,
    pub normals: Seq<Seq<Seq<u8>>>,
    pub default_group: Seq<ObjTriangle>,
    pub groups: Seq<(Seq<u8>, Seq<ObjTriangle>)>,
    pub current_group: Option<nat>,
}

pub open spec fn group_view(g: ObjGroup) -> (Seq<u8>, Seq<ObjTriangle>) {
    (g.name@, g.triangles@)
}

impl View for ObjParser {
    type V = ObjModel;

    open spec fn view(&self) -> ObjModel {
        ObjModel {
            lines_ignored: self.lines_ignored as nat,
            vertices: self.vertices@.map_values(|v: Vec<Vec<u8>>| texts(v@)),
            normals: self.normals@.map_values(|v: Vec<Vec<u8>>| texts(v@)),
            default_group: self.default_group@,
            groups: self.groups@.map_values(|g: ObjGroup| group_view(g)),
            current_group: match self.current_group {
                Some(j) => Some(j as nat),
                None => None,
            },
        }
    }
}

/// The model of an empty file.
pub open spec fn empty_model() -> ObjModel {
    ObjModel {
        lines_ignored: 0,
        vertices: Seq::empty(),
        normals: Seq::empty(),
        default_group: Seq::empty(),
        groups: Seq::empty(),
        current_group: None,
    }
}

/// The triangle names only vertices among the first `nv` and normals among the first `nn`.
pub open spec fn triangle_in_range(t: ObjTriangle, nv: nat, nn: nat) -> bool {
    t.v1 <= nv && t.v2 <= nv && t.v3 <= nv && t.n1 <= nn && t.n2 <= nn && t.n3 <= nn
}

/// Every triangle of `ts` names only vertices and normals among the first `nv` and `nn`.
pub open spec fn triangles_in_range(ts: Seq<ObjTriangle>, nv: nat, nn: nat) -> bool {
    forall|i: int| 0 <= i < ts.len() ==> triangle_in_range(#[trigger] ts[i], nv, nn)
}

/// No two groups share a name, the current group is one of them, and every triangle names
/// vertices and normals that the model holds.
pub open spec fn model_wf(m: ObjModel) -> bool {
    &&& triangles_in_range(m.default_group, m.vertices.len(), m.normals.len())
    &&& forall|j: int|
        0 <= j < m.groups.len() ==> triangles_in_range(
            #[trigger] m.groups[j].1,
            m.vertices.len(),
            m.normals.len(),
        )
    &&& forall|i: int, j: int|
        0 <= i < m.groups.len() && 0 <= j < m.groups.len() && i != j ==> m.groups[i].0
            != m.groups[j].0
    &&& match m.current_group {
        Some(j) => j < m.groups.len(),
        None => true,
    }
}

/// The non-empty fields, trimmed, among `f[1..n]`: the coordinates of a vertex record.
pub open spec fn coords_prefix(f: Seq<Seq<u8>>, n: int) -> Seq<Seq<u8>>
    decreases n,
{
    if n <= 1 {
        Seq::empty()
    } else if trim(f[n - 1]).len() > 0 {
        coords_prefix(f, n - 1).push(trim(f[n - 1]))
    } else {
        coords_prefix(f, n - 1)
    }
}

/// The corner that a face field such as `3`, `3/1/2` or `3//2` names.
pub open spec fn face_vertex(field: Seq<u8>) -> Option<FaceVertex> {
    let parts = split(field, 47);
    match parse_index(parts[0]) {
        None => None,
        Some(v) => if parts.len() >= 3 {
            match parse_index(parts[2]) {
                None => None,
                Some(n) => Some(FaceVertex { vertex: v as usize, normal: n as usize }),
            }
        } else {
            Some(FaceVertex { vertex: v as usize, normal: 0 })
        },
    }
}

/// The corners named by `f[1..n]`, or `None` if one of them is malformed.
pub open spec fn face_prefix(f: Seq<Seq<u8>>, n: int) -> Option<Seq<FaceVertex>>
    decreases n,
{
    if n <= 1 {
        Some(Seq::empty())
    } else {
        match (face_prefix(f, n - 1), face_vertex(f[n - 1])) {
            (Some(p), Some(e)) => Some(p.push(e)),
            _ => None,
        }
    }
}

/// Every corner names a vertex among the first `nv` and a normal among the first `nn`.
pub open spec fn in_range(es: Seq<FaceVertex>, nv: nat, nn: nat) -> bool {
    forall|i: int| 0 <= i < es.len() ==> #[trigger] es[i].vertex <= nv && es[i].normal <= nn
}

pub open spec fn triangle_of(a: FaceVertex, b: FaceVertex, c: FaceVertex) -> ObjTriangle {
    ObjTriangle {
        v1: a.vertex,
        v2: b.vertex,
        v3: c.vertex,
        n1: a.normal,
        n2: b.normal,
        n3: c.normal,
    }
}

/// The fan of triangles that shares the first corner of a polygon: one triangle for each
/// pair of neighbouring corners after the first.
pub open spec fn fan(es: Seq<FaceVertex>) -> Seq<ObjTriangle> {
    if es.len() < 3 {
        Seq::empty()
    } else {
        Seq::new((es.len() - 2) as nat, |i: int| triangle_of(es[0], es[i + 1], es[i + 2]))
    }
}

/// `m` with triangles `ts` added to its current group.
pub open spec fn add_triangles(m: ObjModel, ts: Seq<ObjTriangle>) -> ObjModel {
    match m.current_group {
        Some(j) => ObjModel {
            groups: m.groups.update(j as int, (m.groups[j as int].0, m.groups[j as int].1 + ts)),
            ..m
        },
        None => ObjModel { default_group: m.default_group + ts, ..m },
    }
}

/// `m` with the group `name` made current and emptied, or added if it is new.
pub open spec fn open_group(m: ObjModel, name: Seq<u8>) -> ObjModel {
    if exists|j: int| 0 <= j < m.groups.len() && m.groups[j].0 == name {
        let j = choose|j: int| 0 <= j < m.groups.len() && m.groups[j].0 == name;
        ObjModel {
            groups: m.groups.update(j, (name, Seq::empty())),
            current_group: Some(j as nat),
            ..m
        }
    } else {
        ObjModel {
            groups: m.groups.push((name, Seq::empty())),
            current_group: Some(m.groups.len()),
            ..m
        }
    }
}

/// The effect of one line of a model file.
pub open spec fn step(m: ObjModel, line: Seq<u8>) -> Result<ObjModel, ObjError> {
    let l = trim(line);
    if l.len() == 0 {
        Ok(m)
    } else {
        let f = split(l, 32);
        let cmd = f[0];
        if cmd == seq![118u8] || cmd == seq![118u8, 110] {
            let c = coords_prefix(f, f.len() as int);
            if c.len() < 3 {
                Err(ObjError::MissingCoordinates)
            } else if cmd == seq![118u8] {
                Ok(ObjModel { vertices: m.vertices.push(c), ..m })
            } else {
                Ok(ObjModel { normals: m.normals.push(c), ..m })
            }
        } else if cmd == seq![102u8] {
            match face_prefix(f, f.len() as int) {
                None => Err(ObjError::BadIndex),
                Some(es) => if in_range(es, m.vertices.len(), m.normals.len()) {
                    Ok(add_triangles(m, fan(es)))
                } else {
                    Err(ObjError::IndexOutOfRange)
                },
            }
        } else if cmd == seq![103u8] {
            if f.len() < 2 {
                Err(ObjError::MissingGroupName)
            } else {
                Ok(open_group(m, f[1]))
            }
        } else {
            Ok(ObjModel { lines_ignored: m.lines_ignored + 1, ..m })
        }
    }
}

/// The model after the first `n` lines, or the error of the first line that fails.
pub open spec fn parse_lines(lines: Seq<Seq<u8>>, n: int) -> Result<ObjModel, ObjError>
    decreases n,
{
    if n <= 0 {
        Ok(empty_model())
    } else {
        match parse_lines(lines, n - 1) {
            Ok(m) => step(m, lines[n - 1]),
            Err(e) => Err(e),
        }
    }
}

/// The model of a whole file, read line by line.
pub open spec fn parse_obj(contents: Seq<u8>) -> Result<ObjModel, ObjError> {
    let lines = split(contents, 10);
    parse_lines(lines, lines.len() as int)
}

fn same_bytes(a: &Vec<u8>, b: &Vec<u8>) -> (r: bool)
    ensures
        r == (a@ == b@),
{
    if a.len() != b.len() {
        return false;
    }
    let mut k: usize = 0;
    while k < a.len()
        invariant
            k <= a@.len() == b@.len(),
            forall|i: int| 0 <= i < k ==> a@[i] == b@[i],
        decreases a@.len() - k,
    {
        if a[k] != b[k] {
            return false;
        }
        k += 1;
    }
    assert(a@ =~= b@);
    true
}

fn is_word1(c: &Vec<u8>, x: u8) -> (r: bool)
    ensures
        r == (c@ == seq![x]),
{
    let r = c.len() == 1 && c[0] == x;
    if r {
        assert(c@ =~= seq![x]);
    }
    r
}

fn is_word2(c: &Vec<u8>, x: u8, y: u8) -> (r: bool)
    ensures
        r == (c@ == seq![x, y]),
{
    let r = c.len() == 2 && c[0] == x && c[1] == y;
    if r {
        assert(c@ =~= seq![x, y]);
    }
    r
}

/// The coordinates of a vertex or normal record split into fields.
fn coords_of(f: &Vec<Vec<u8>>) -> (r: Vec<Vec<u8>>)
    ensures
        texts(r@) == coords_prefix(texts(f@), f@.len() as int),
{
    let mut r: Vec<Vec<u8>> = Vec::new();
    if f.len() <= 1 {
        assert(texts(r@) =~= Seq::empty());
        return r;
    }
    let mut k: usize = 1;
    while k < f.len()
        invariant
            1 <= k <= f@.len(),
            texts(r@) == coords_prefix(texts(f@), k as int),
        decreases f@.len() - k,
    {
        let t = trim_bytes(&f[k]);
        if t.len() > 0 {
            r.push(t);
        }
        k += 1;
        assert(texts(r@) =~= coords_prefix(texts(f@), k as int));
    }
    r
}

/// The corner that one face field names.
fn face_vertex_of(field: &Vec<u8>) -> (r: Option<FaceVertex>)
    ensures
        r == face_vertex(field@),
{
    let parts = split_bytes(field, 47);
    proof {
        lemma_split_prefix_nonempty(field@, 47, field@.len() as int);
    }
    let vertex = match parse_index_bytes(&parts[0]) {
        None => {
            return None;
        },
        Some(v) => v,
    };
    if parts.len() >= 3 {
        match parse_index_bytes(&parts[2]) {
            None => None,
            Some(n) => Some(FaceVertex { vertex, normal: n }),
        }
    } else {
        Some(FaceVertex { vertex, normal: 0 })
    }
}

/// The corners of a face record split into fields.
fn face_of(f: &Vec<Vec<u8>>) -> (r: Option<Vec<FaceVertex>>)
    ensures
        match r {
            Some(es) => face_prefix(texts(f@), f@.len() as int) == Some(es@),
            None => face_prefix(texts(f@), f@.len() as int) == None::<Seq<FaceVertex>>,
        },
{
    let mut es: Vec<FaceVertex> = Vec::new();
    if f.len() <= 1 {
        assert(es@ =~= Seq::empty());
        return Some(es);
    }
    let mut k: usize = 1;
    while k < f.len()
        invariant
            1 <= k <= f@.len(),
            face_prefix(texts(f@), k as int) == Some(es@),
        decreases f@.len() - k,
    {
        match face_vertex_of(&f[k]) {
            None => {
                proof {
                    lemma_face_prefix_none(texts(f@), k as int + 1, f@.len() as int);
                }
                return None;
            },
            Some(e) => {
                es.push(e);
            },
        }
        k += 1;
    }
    Some(es)
}

proof fn lemma_face_prefix_none(f: Seq<Seq<u8>>, i: int, j: int)
    requires
        1 <= i <= j,
        face_prefix(f, i) == None::<Seq<FaceVertex>>,
    ensures
        face_prefix(f, j) == None::<Seq<FaceVertex>>,
    decreases j - i,
{
    if i < j {
        lemma_face_prefix_none(f, i, j - 1);
    }
}

/// Whether every corner names a vertex among the first `nv` and a normal among the first `nn`.
fn all_in_range(es: &Vec<FaceVertex>, nv: usize, nn: usize) -> (r: bool)
    ensures
        r == in_range(es@, nv as nat, nn as nat),
{
    let mut k: usize = 0;
    while k < es.len()
        invariant
            k <= es@.len(),
            forall|i: int| 0 <= i < k ==> #[trigger] es@[i].vertex <= nv && es@[i].normal <= nn,
        decreases es@.len() - k,
    {
        if es[k].vertex > nv || es[k].normal > nn {
            return false;
        }
        k += 1;
    }
    true
}

/// Splits a polygon into the fan of triangles that share its first corner.
pub fn fan_triangulation(es: &Vec<FaceVertex>) -> (r: Vec<ObjTriangle>)
    ensures
        r@ == fan(es@),
{
    let mut r: Vec<ObjTriangle> = Vec::new();
    if es.len() < 3 {
        assert(r@ =~= fan(es@));
        return r;
    }
    let first = es[0];
    let mut i: usize = 0;
    while i < es.len() - 2
        invariant
            3 <= es@.len(),
            first == es@[0],
            i <= es@.len() - 2,
            r@ =~= fan(es@).take(i as int),
        decreases es@.len() - 2 - i,
    {
        let b = es[i + 1];
        let c = es[i + 2];
        r.push(
            ObjTriangle {
                v1: first.vertex,
                v2: b.vertex,
                v3: c.vertex,
                n1: first.normal,
                n2: b.normal,
                n3: c.normal,
            },
        );
        i += 1;
        assert(r@ =~= fan(es@).take(i as int));
    }
    assert(fan(es@).take(i as int) =~= fan(es@));
    r
}

impl ObjParser {
    /// Adds the triangles `ts` to the current group.
    fn add_triangles(&mut self, ts: Vec<ObjTriangle>)
        requires
            model_wf(old(self)@),
            triangles_in_range(ts@, old(self)@.vertices.len(), old(self)@.normals.len()),
        ensures
            final(self)@ == add_triangles(old(self)@, ts@),
            model_wf(final(self)@),
    {
        let ghost added = ts@;
        let mut ts = ts;
        let ghost m = self@;
        match self.current_group {
            Some(j) => {
                let mut g = self.groups.remove(j);
                g.triangles.append(&mut ts);
                self.groups.insert(j, g);
                proof {
                    let want = add_triangles(m, added);
                    assert(self@.groups =~= want.groups);
                    let nv = m.vertices.len();
                    let nn = m.normals.len();
                    assert(triangles_in_range(m.groups[j as int].1, nv, nn));
                    assert(triangles_in_range(m.groups[j as int].1 + added, nv, nn)) by {
                        let gs = m.groups[j as int].1 + added;
                        assert forall|i: int| 0 <= i < gs.len() implies triangle_in_range(
                            #[trigger] gs[i],
                            nv,
                            nn,
                        ) by {
                            if i < m.groups[j as int].1.len() {
                                assert(gs[i] == m.groups[j as int].1[i]);
                            } else {
                                assert(gs[i] == added[i - m.groups[j as int].1.len()]);
                            }
                        }
                    }
                    assert(self@.vertices =~= want.vertices);
                    assert(self@.normals =~= want.normals);
                }
            },
            None => {
                self.default_group.append(&mut ts);
                proof {
                    let want = add_triangles(m, added);
                    let nv = m.vertices.len();
                    let nn = m.normals.len();
                    let ds = m.default_group + added;
                    assert forall|i: int| 0 <= i < ds.len() implies triangle_in_range(
                        #[trigger] ds[i],
                        nv,
                        nn,
                    ) by {
                        if i < m.default_group.len() {
                            assert(ds[i] == m.default_group[i]);
                        } else {
                            assert(ds[i] == added[i - m.default_group.len()]);
                        }
                    }
                    assert(self@.groups =~= want.groups);
                    assert(self@.vertices =~= want.vertices);
                    assert(self@.normals =~= want.normals);
                }
            },
        }
    }

    /// Makes the group `name` current, emptied, or adds it if it is new.
    fn open_group(&mut self, name: Vec<u8>)
        requires
            model_wf(old(self)@),
        ensures
            final(self)@ == open_group(old(self)@, name@),
            model_wf(final(self)@),
    {
        let ghost m = self@;
        let mut j: usize = 0;
        while j < self.groups.len()
            invariant
                j <= self.groups@.len(),
                self@ == m,
                m == old(self)@,
                model_wf(m),
                forall|i: int| 0 <= i < j ==> m.groups[i].0 != name@,
            decreases self.groups@.len() - j,
        {
            if same_bytes(&self.groups[j].name, &name) {
                proof {
                    assert(self@.groups[j as int] == group_view(self.groups@[j as int]));
                    assert(m.groups[j as int].0 == name@);
                    let w = choose|i: int| 0 <= i < m.groups.len() && m.groups[i].0 == name@;
                    assert(w == j);
                }
                let _old = self.groups.remove(j);
                self.groups.insert(j, ObjGroup { name, triangles: Vec::new() });
                self.current_group = Some(j);
                proof {
                    assert(exists|i: int| 0 <= i < m.groups.len() && m.groups[i].0 == name@);
                    let want = open_group(m, name@);
                    assert(want.current_group == Some(j as nat));
                    assert(self@.groups =~= want.groups);
                    assert(self@.vertices =~= want.vertices);
                    assert(self@.normals =~= want.normals);
                }
                return;
            }
            j += 1;
        }
        let ghost gname = name@;
        self.groups.push(ObjGroup { name, triangles: Vec::new() });
        self.current_group = Some(j);
        proof {
            let want = open_group(m, gname);
            assert(self@.groups =~= want.groups);
            assert(self@.vertices =~= want.vertices);
            assert(self@.normals =~= want.normals);
        }
    }

    /// Reads one line of a model file.
    fn parse_line(&mut self, line: &Vec<u8>) -> (r: Result<(), ObjError>)
        requires
            model_wf(old(self)@),
            old(self).lines_ignored < usize::MAX,
        ensures
            match r {
                Ok(()) => step(old(self)@, line@) == Ok::<ObjModel, ObjError>(final(self)@)
                    && model_wf(final(self)@) && final(self).lines_ignored <= old(
                    self,
                ).lines_ignored + 1,
                Err(e) => step(old(self)@, line@) == Err::<ObjModel, ObjError>(e),
            },
    {
        let ghost m = self@;
        let l = trim_bytes(line);
        if l.len() == 0 {
            return Ok(());
        }
        let f = split_bytes(&l, 32);
        proof {
            lemma_split_prefix_nonempty(l@, 32, l@.len() as int);
        }
        let is_v = is_word1(&f[0], 118);
        let is_vn = is_word2(&f[0], 118, 110);
        if is_v || is_vn {
            let c = coords_of(&f);
            if c.len() < 3 {
                return Err(ObjError::MissingCoordinates);
            }
            if is_v {
                self.vertices.push(c);
            } else {
                self.normals.push(c);
            }
            proof {
                let want = step(m, line@)->Ok_0;
                assert(self@.vertices =~= want.vertices);
                assert(self@.normals =~= want.normals);
                assert(self@.groups =~= want.groups);
            }
            Ok(())
        } else if is_word1(&f[0], 102) {
            let es = match face_of(&f) {
                None => {
                    return Err(ObjError::BadIndex);
                },
                Some(es) => es,
            };
            if !all_in_range(&es, self.vertices.len(), self.normals.len()) {
                return Err(ObjError::IndexOutOfRange);
            }
            let ts = fan_triangulation(&es);
            proof {
                let nv = m.vertices.len();
                let nn = m.normals.len();
                assert forall|i: int| 0 <= i < ts@.len() implies triangle_in_range(
                    #[trigger] ts@[i],
                    nv,
                    nn,
                ) by {
                    assert(es@[0].vertex <= nv && es@[0].normal <= nn);
                    assert(es@[i + 1].vertex <= nv && es@[i + 1].normal <= nn);
                    assert(es@[i + 2].vertex <= nv && es@[i + 2].normal <= nn);
                }
            }
            self.add_triangles(ts);
            Ok(())
        } else if is_word1(&f[0], 103) {
            if f.len() < 2 {
                return Err(ObjError::MissingGroupName);
            }
            let name = copy_bytes(&f[1]);
            self.open_group(name);
            Ok(())
        } else {
            self.lines_ignored += 1;
            proof {
                let want = step(m, line@)->Ok_0;
                assert(self@.vertices =~= want.vertices);
                assert(self@.normals =~= want.normals);
                assert(self@.groups =~= want.groups);
            }
            Ok(())
        }
    }

    /// Parses a model file: vertex (`v`), vertex-normal (`vn`), face (`f`) and group (`g`)
    /// records, one per line. Faces are split into triangles and go to the group named last,
    /// or to the default group before any; other lines are counted and ignored.
    pub fn from_str(contents: &str) -> (r: Result<ObjParser, ObjError>)
        ensures
            match r {
                Ok(p) => parse_obj(contents.spec_bytes()) == Ok::<ObjModel, ObjError>(p@)
                    && model_wf(p@),
                Err(e) => parse_obj(contents.spec_bytes()) == Err::<ObjModel, ObjError>(e),
            },
    {
        let bytes = slice_to_vec(contents.as_bytes());
        let lines = split_bytes(&bytes, 10);
        let ghost ls = texts(lines@);
        let mut p = ObjParser {
            lines_ignored: 0,
            vertices: Vec::new(),
            normals: Vec::new(),
            default_group: Vec::new(),
            groups: Vec::new(),
            current_group: None,
        };
        proof {
            let e = empty_model();
            assert(p@.vertices =~= e.vertices);
            assert(p@.normals =~= e.normals);
            assert(p@.groups =~= e.groups);
            assert(p@.default_group =~= e.default_group);
        }
        let mut i: usize = 0;
        while i < lines.len()
            invariant
                i <= lines@.len(),
                ls == texts(lines@),
                ls == split(contents.spec_bytes(), 10),
                parse_lines(ls, i as int) == Ok::<ObjModel, ObjError>(p@),
                model_wf(p@),
                p.lines_ignored <= i,
            decreases lines@.len() - i,
        {
            match p.parse_line(&lines[i]) {
                Err(e) => {
                    proof {
                        lemma_parse_lines_err(ls, i as int + 1, ls.len() as int, e);
                    }
                    return Err(e);
                },
                Ok(()) => {},
            }
            i += 1;
        }
        Ok(p)
    }
}

proof fn lemma_parse_lines_err(lines: Seq<Seq<u8>>, i: int, j: int, e: ObjError)
    requires
        1 <= i <= j,
        parse_lines(lines, i) == Err::<ObjModel, ObjError>(e),
    ensures
        parse_lines(lines, j) == Err::<ObjModel, ObjError>(e),
    decreases j - i,
{
    if i < j {
        lemma_parse_lines_err(lines, i, j - 1, e);
    }
}

fn copy_bytes(a: &Vec<u8>) -> (r: Vec<u8>)
    ensures
        r@ == a@,
{
    let mut r: Vec<u8> = Vec::new();
    let mut k: usize = 0;
    while k < a.len()
        invariant
            k <= a@.len(),
            r@ == a@.take(k as int),
        decreases a@.len() - k,
    {
        r.push(a[k]);
        k += 1;
        assert(r@ =~= a@.take(k as int));
    }
    assert(a@.take(k as int) =~= a@);
    r
}

} // verus!
