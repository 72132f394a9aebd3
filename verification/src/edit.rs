//! Structural edits of the document: deleting a field (which cascades to
//! every project's membership list), deleting a project (which cascades to
//! the relations that reference it), and the drag-reorder of the field
//! list, a plain list splice.

use crate::models::{
    all_fields_wf, field_views, project_views, relation_views, unique_field_ids, AppData,
    FieldView, Project, ProjectRelation, ProjectView, RelationView, ResearchField,
};
use vstd::prelude::*;

verus! {

/// A membership list with every occurrence of one id removed, order kept.
pub open spec fn ids_without(ids: Seq<Seq<char>>, id: Seq<char>) -> Seq<Seq<char>>
    decreases ids.len(),
{
    if ids.len() == 0 {
        Seq::empty()
    } else {
        let rest = ids_without(ids.drop_last(), id);
        if ids.last() == id {
            rest
        } else {
            rest.push(ids.last())
        }
    }
}

/// A field list with every field of one id removed, order kept.
pub open spec fn fields_without(fields: Seq<FieldView>, id: Seq<char>) -> Seq<FieldView>
    decreases fields.len(),
{
    if fields.len() == 0 {
        Seq::empty()
    } else {
        let rest = fields_without(fields.drop_last(), id);
        if fields.last().id == id {
            rest
        } else {
            rest.push(fields.last())
        }
    }
}

/// A project list with every project of one id removed, order kept.
pub open spec fn projects_without(projects: Seq<ProjectView>, id: Seq<char>) -> Seq<ProjectView>
    decreases projects.len(),
{
    if projects.len() == 0 {
        Seq::empty()
    } else {
        let rest = projects_without(projects.drop_last(), id);
        if projects.last().id == id {
            rest
        } else {
            rest.push(projects.last())
        }
    }
}

/// A relation list with every relation that starts or ends at one project
/// removed, order kept.
pub open spec fn relations_without(relations: Seq<RelationView>, id: Seq<char>) -> Seq<RelationView>
    decreases relations.len(),
{
    if relations.len() == 0 {
        Seq::empty()
    } else {
        let rest = relations_without(relations.drop_last(), id);
        if relations.last().from_id == id || relations.last().to_id == id {
            rest
        } else {
            rest.push(relations.last())
        }
    }
}

/// Every surviving field is one of the original fields, no kept field has
/// the removed id, and distinctness and well-formedness carry over.
pub proof fn lemma_fields_without(fields: Seq<FieldView>, id: Seq<char>)
    requires
        unique_field_ids(fields),
    ensures
        forall|k: int|
            0 <= k < fields_without(fields, id).len() ==> exists|j: int|
                0 <= j < fields.len() && #[trigger] fields_without(fields, id)[k] == fields[j],
        forall|k: int|
            0 <= k < fields_without(fields, id).len() ==> (#[trigger] fields_without(fields, id)[k]).id
                != id,
        unique_field_ids(fields_without(fields, id)),
        all_fields_wf(fields) ==> all_fields_wf(fields_without(fields, id)),
    decreases fields.len(),
{
    if fields.len() > 0 {
        let head = fields.drop_last();
        assert(forall|i: int| 0 <= i < head.len() ==> head[i] == #[trigger] fields[i]);
        lemma_fields_without(head, id);
        let rest = fields_without(head, id);
        if fields.last().id != id {
            let full = rest.push(fields.last());
            assert forall|k: int| 0 <= k < full.len() implies exists|j: int|
                0 <= j < fields.len() && #[trigger] full[k] == fields[j] by {
                if k < rest.len() {
                    let j = choose|j: int| 0 <= j < head.len() && rest[k] == head[j];
                    assert(full[k] == fields[j]);
                } else {
                    assert(full[k] == fields[fields.len() - 1]);
                }
            }
            assert forall|a: int, b: int| 0 <= a < b < full.len() implies (#[trigger] full[a]).id
                != (#[trigger] full[b]).id by {
                if b == rest.len() {
                    let j = choose|j: int| 0 <= j < head.len() && rest[a] == head[j];
                    assert(fields[j].id != fields[fields.len() - 1].id);
                }
            }
        }
    }
}

/// Same facts for project removal.
pub proof fn lemma_projects_without(projects: Seq<ProjectView>, id: Seq<char>)
    requires
        crate::models::unique_project_ids(projects),
    ensures
        forall|k: int|
            0 <= k < projects_without(projects, id).len() ==> exists|j: int|
                0 <= j < projects.len() && #[trigger] projects_without(projects, id)[k]
                    == projects[j],
        forall|k: int|
            0 <= k < projects_without(projects, id).len() ==> (#[trigger] projects_without(
                projects,
                id,
            )[k]).id != id,
        crate::models::unique_project_ids(projects_without(projects, id)),
        crate::models::all_projects_wf(projects) ==> crate::models::all_projects_wf(
            projects_without(projects, id),
        ),
    decreases projects.len(),
{
    if projects.len() > 0 {
        let head = projects.drop_last();
        assert(forall|i: int| 0 <= i < head.len() ==> head[i] == #[trigger] projects[i]);
        lemma_projects_without(head, id);
        let rest = projects_without(head, id);
        if projects.last().id != id {
            let full = rest.push(projects.last());
            assert forall|k: int| 0 <= k < full.len() implies exists|j: int|
                0 <= j < projects.len() && #[trigger] full[k] == projects[j] by {
                if k < rest.len() {
                    let j = choose|j: int| 0 <= j < head.len() && rest[k] == head[j];
                    assert(full[k] == projects[j]);
                } else {
                    assert(full[k] == projects[projects.len() - 1]);
                }
            }
            assert forall|a: int, b: int| 0 <= a < b < full.len() implies (#[trigger] full[a]).id
                != (#[trigger] full[b]).id by {
                if b == rest.len() {
                    let j = choose|j: int| 0 <= j < head.len() && rest[a] == head[j];
                    assert(projects[j].id != projects[projects.len() - 1].id);
                }
            }
        }
    }
}

/// Remove, in place, every field with the given id.
fn remove_fields_with_id(fields: &mut Vec<ResearchField>, id: &String)
    ensures
        field_views(final(fields)@) == fields_without(field_views(old(fields)@), id@),
{
    let ghost orig = field_views(old(fields)@);
    let mut i: usize = 0;
    let ghost mut k: int = 0;
    proof {
        assert(field_views(fields@) =~= fields_without(orig.take(0), id@) + orig.skip(0));
    }
    while i < fields.len()
        invariant
            0 <= k <= orig.len(),
            field_views(fields@) == fields_without(orig.take(k), id@) + orig.skip(k),
            i as int == fields_without(orig.take(k), id@).len(),
        decreases orig.len() - k,
    {
        proof {
            assert(field_views(fields@)[i as int] == orig[k]);
            assert(orig.take(k + 1).drop_last() =~= orig.take(k));
            assert(orig.take(k + 1).last() == orig[k]);
        }
        if fields[i].id == *id {
            let ghost before = field_views(fields@);
            fields.remove(i);
            proof {
                k = k + 1;
                assert(field_views(fields@) =~= before.remove(i as int));
                assert(field_views(fields@) =~= fields_without(orig.take(k), id@) + orig.skip(k));
            }
        } else {
            i = i + 1;
            proof {
                k = k + 1;
                assert(field_views(fields@) =~= fields_without(orig.take(k), id@) + orig.skip(k));
            }
        }
    }
    proof {
        assert(k == orig.len());
        assert(orig.take(k) =~= orig);
    }
}

/// Remove, in place, every occurrence of the given id from a membership
/// list.
fn remove_id_from(ids: &mut Vec<String>, id: &String)
    ensures
        final(ids).deep_view() == ids_without(old(ids).deep_view(), id@),
{
    let ghost orig = old(ids).deep_view();
    let mut i: usize = 0;
    let ghost mut k: int = 0;
    proof {
        assert(ids.deep_view() =~= ids_without(orig.take(0), id@) + orig.skip(0));
    }
    while i < ids.len()
        invariant
            0 <= k <= orig.len(),
            ids.deep_view() == ids_without(orig.take(k), id@) + orig.skip(k),
            i as int == ids_without(orig.take(k), id@).len(),
        decreases orig.len() - k,
    {
        proof {
            assert(ids.deep_view()[i as int] == orig[k]);
            assert(ids.deep_view()[i as int] == ids@[i as int]@);
            assert(orig.take(k + 1).drop_last() =~= orig.take(k));
            assert(orig.take(k + 1).last() == orig[k]);
        }
        if ids[i] == *id {
            let ghost before = ids.deep_view();
            ids.remove(i);
            proof {
                k = k + 1;
                assert(ids.deep_view() =~= before.remove(i as int));
                assert(ids.deep_view() =~= ids_without(orig.take(k), id@) + orig.skip(k));
            }
        } else {
            i = i + 1;
            proof {
                k = k + 1;
                assert(ids.deep_view() =~= ids_without(orig.take(k), id@) + orig.skip(k));
            }
        }
    }
    proof {
        assert(k == orig.len());
        assert(orig.take(k) =~= orig);
    }
}

/// Remove, in place, every project with the given id.
fn remove_projects_with_id(projects: &mut Vec<Project>, id: &String)
    ensures
        project_views(final(projects)@) == projects_without(project_views(old(projects)@), id@),
{
    let ghost orig = project_views(old(projects)@);
    let mut i: usize = 0;
    let ghost mut k: int = 0;
    proof {
        assert(project_views(projects@) =~= projects_without(orig.take(0), id@) + orig.skip(0));
    }
    while i < projects.len()
        invariant
            0 <= k <= orig.len(),
            project_views(projects@) == projects_without(orig.take(k), id@) + orig.skip(k),
            i as int == projects_without(orig.take(k), id@).len(),
        decreases orig.len() - k,
    {
        proof {
            assert(project_views(projects@)[i as int] == orig[k]);
            assert(orig.take(k + 1).drop_last() =~= orig.take(k));
            assert(orig.take(k + 1).last() == orig[k]);
        }
        if projects[i].id == *id {
            let ghost before = project_views(projects@);
            projects.remove(i);
            proof {
                k = k + 1;
                assert(project_views(projects@) =~= before.remove(i as int));
                assert(project_views(projects@) =~= projects_without(orig.take(k), id@)
                    + orig.skip(k));
            }
        } else {
            i = i + 1;
            proof {
                k = k + 1;
                assert(project_views(projects@) =~= projects_without(orig.take(k), id@)
                    + orig.skip(k));
            }
        }
    }
    proof {
        assert(k == orig.len());
        assert(orig.take(k) =~= orig);
    }
}

/// Remove, in place, every relation that starts or ends at the given
/// project.
fn remove_relations_with(relations: &mut Vec<ProjectRelation>, id: &String)
    ensures
        relation_views(final(relations)@) == relations_without(
            relation_views(old(relations)@),
            id@,
        ),
{
    let ghost orig = relation_views(old(relations)@);
    let mut i: usize = 0;
    let ghost mut k: int = 0;
    proof {
        assert(relation_views(relations@) =~= relations_without(orig.take(0), id@) + orig.skip(0));
    }
    while i < relations.len()
        invariant
            0 <= k <= orig.len(),
            relation_views(relations@) == relations_without(orig.take(k), id@) + orig.skip(k),
            i as int == relations_without(orig.take(k), id@).len(),
        decreases orig.len() - k,
    {
        proof {
            assert(relation_views(relations@)[i as int] == orig[k]);
            assert(orig.take(k + 1).drop_last() =~= orig.take(k));
            assert(orig.take(k + 1).last() == orig[k]);
        }
        if relations[i].from_id == *id || relations[i].to_id == *id {
            let ghost before = relation_views(relations@);
            relations.remove(i);
            proof {
                k = k + 1;
                assert(relation_views(relations@) =~= before.remove(i as int));
                assert(relation_views(relations@) =~= relations_without(orig.take(k), id@)
                    + orig.skip(k));
            }
        } else {
            i = i + 1;
            proof {
                k = k + 1;
                assert(relation_views(relations@) =~= relations_without(orig.take(k), id@)
                    + orig.skip(k));
            }
        }
    }
    proof {
        assert(k == orig.len());
        assert(orig.take(k) =~= orig);
    }
}

/// Delete a field: the field itself leaves the field list and its id
/// leaves every project's membership list, so no dangling membership is
/// left behind.  Everything else is untouched.
pub fn delete_field(doc: &mut AppData, fid: &String)
    requires
        old(doc)@.wf(),
    ensures
        final(doc)@.wf(),
        final(doc)@.fields == fields_without(old(doc)@.fields, fid@),
        final(doc)@.projects.len() == old(doc)@.projects.len(),
        forall|i: int|
            0 <= i < old(doc)@.projects.len() ==> #[trigger] final(doc)@.projects[i]
                == (ProjectView {
                field_ids: ids_without(old(doc)@.projects[i].field_ids, fid@),
                ..old(doc)@.projects[i]
            }),
        final(doc)@.relations == old(doc)@.relations,
        final(doc)@.relation_tags == old(doc)@.relation_tags,
{
    remove_fields_with_id(&mut doc.fields, fid);
    let n = doc.projects.len();
    for i in 0..n
        invariant
            n == doc.projects.len(),
            doc@.fields == fields_without(old(doc)@.fields, fid@),
            doc@.relations == old(doc)@.relations,
            doc@.relation_tags == old(doc)@.relation_tags,
            forall|j: int| i <= j < n ==> #[trigger] doc@.projects[j] == old(doc)@.projects[j],
            forall|j: int|
                0 <= j < i ==> #[trigger] doc@.projects[j] == (ProjectView {
                    field_ids: ids_without(old(doc)@.projects[j].field_ids, fid@),
                    ..old(doc)@.projects[j]
                }),
    {
        let ghost before = doc@.projects;
        let ghost sb = doc.projects@;
        let mut p = doc.projects.remove(i);
        remove_id_from(&mut p.field_ids, fid);
        let ghost pv = p;
        doc.projects.insert(i, p);
        proof {
            sb.remove_ensures(i as int);
            sb.remove(i as int).insert_ensures(i as int, pv);
            assert(doc.projects@ =~= sb.update(i as int, pv));
            assert(before[i as int] == sb[i as int]@);
            assert(sb[i as int]@ == old(doc)@.projects[i as int]);
            assert(doc.projects@[i as int]@ =~= (ProjectView {
                field_ids: ids_without(old(doc)@.projects[i as int].field_ids, fid@),
                ..old(doc)@.projects[i as int]
            }));
            assert(doc@.projects =~= before.update(
                i as int,
                ProjectView {
                    field_ids: ids_without(old(doc)@.projects[i as int].field_ids, fid@),
                    ..old(doc)@.projects[i as int]
                },
            ));
        }
    }
    proof {
        lemma_fields_without(old(doc)@.fields, fid@);
        assert(doc@.wf());
    }
}

/// Delete a project: the project leaves the project list and every
/// relation that starts or ends at it leaves the relation list.
pub fn delete_project(doc: &mut AppData, pid: &String)
    requires
        old(doc)@.wf(),
    ensures
        final(doc)@.wf(),
        final(doc)@.fields == old(doc)@.fields,
        final(doc)@.projects == projects_without(old(doc)@.projects, pid@),
        final(doc)@.relations == relations_without(old(doc)@.relations, pid@),
        final(doc)@.relation_tags == old(doc)@.relation_tags,
{
    remove_projects_with_id(&mut doc.projects, pid);
    remove_relations_with(&mut doc.relations, pid);
    proof {
        lemma_projects_without(old(doc)@.projects, pid@);
        assert(doc@.wf());
    }
}

/// Move the field at index `from` so that it lands at slot `to` of the
/// original list: the drag-reorder splice.  Only the order of the field
/// list changes.
pub fn reorder_fields(doc: &mut AppData, from: usize, to: usize)
    requires
        old(doc)@.wf(),
        from < old(doc)@.fields.len(),
        to <= old(doc)@.fields.len(),
    ensures
        final(doc)@.wf(),
        final(doc)@.fields == old(doc)@.fields.remove(from as int).insert(
            if to > from {
                to - 1
            } else {
                to as int
            },
            old(doc)@.fields[from as int],
        ),
        final(doc)@.projects == old(doc)@.projects,
        final(doc)@.relations == old(doc)@.relations,
        final(doc)@.relation_tags == old(doc)@.relation_tags,
{
    let ghost orig = doc@.fields;
    let f = doc.fields.remove(from);
    let dst = if to > from {
        to - 1
    } else {
        to
    };
    proof {
        assert(field_views(doc.fields@) =~= orig.remove(from as int));
    }
    doc.fields.insert(dst, f);
    proof {
        assert(doc@.fields =~= orig.remove(from as int).insert(dst as int, orig[from as int]));
        orig.remove_ensures(from as int);
        let removed = orig.remove(from as int);
        let res = removed.insert(dst as int, orig[from as int]);
        assert(forall|c: int| 0 <= c < dst as int ==> #[trigger] res[c] == removed[c]);
        assert(res[dst as int] == orig[from as int]);
        assert(forall|c: int|
            (dst as int) < c && c < res.len() ==> #[trigger] res[c] == removed[c - 1]);
        assert forall|a: int, b: int| 0 <= a < b < res.len() implies (#[trigger] res[a]).id != (
        #[trigger] res[b]).id by {
            let oa = reorder_source(from as int, dst as int, a);
            let ob = reorder_source(from as int, dst as int, b);
            assert(res[a] == orig[oa] && res[b] == orig[ob]);
            assert(oa != ob);
        }
        assert forall|a: int| 0 <= a < res.len() implies (#[trigger] res[a]).wf() by {
            let oa = reorder_source(from as int, dst as int, a);
            assert(res[a] == orig[oa]);
        }
        assert(doc@.wf());
    }
}

/// Which original index the reordered list reads at position `c`.
pub open spec fn reorder_source(from: int, dst: int, c: int) -> int {
    if c == dst {
        from
    } else {
        let a = if c < dst {
            c
        } else {
            c - 1
        };
        if a < from {
            a
        } else {
            a + 1
        }
    }
}

} // verus!
