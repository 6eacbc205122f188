use vstd::prelude::*;

verus! {

/// One memory: its text and where it is filed in the palace.
///
/// `importance` holds the IEEE-754 bits of the importance score (`f64::to_bits`),
/// so that the score can be stored and ordered with integers alone.
pub struct Drawer {
    pub id: String,
    pub content: String,
    pub wing: String,
    pub room: String,
    pub source_file: String,
    pub source_mtime: i64,
    pub chunk_index: i64,
    pub added_by: String,
    pub filed_at: String,
    pub hall: String,
    pub topic: String,
    pub drawer_type: String,
    pub agent: String,
    pub date: String,
    pub importance: u64,
}

impl Clone for Drawer {
    fn clone(&self) -> (r: Self)
        ensures
            r == *self,
    {
        Drawer {
            id: self.id.clone(),
            content: self.content.clone(),
            wing: self.wing.clone(),
            room: self.room.clone(),
            source_file: self.source_file.clone(),
            source_mtime: self.source_mtime,
            chunk_index: self.chunk_index,
            added_by: self.added_by.clone(),
            filed_at: self.filed_at.clone(),
            hall: self.hall.clone(),
            topic: self.topic.clone(),
            drawer_type: self.drawer_type.clone(),
            agent: self.agent.clone(),
            date: self.date.clone(),
            importance: self.importance,
        }
    }
}

/// A node of the knowledge graph. `properties` is the JSON text stored with it.
pub struct Entity {
    pub id: String,
    pub name: String,
    pub entity_type: String,
    pub properties: String,
    pub created_at: String,
}

impl Clone for Entity {
    fn clone(&self) -> (r: Self)
        ensures
            r == *self,
    {
        Entity {
            id: self.id.clone(),
            name: self.name.clone(),
            entity_type: self.entity_type.clone(),
            properties: self.properties.clone(),
            created_at: self.created_at.clone(),
        }
    }
}

/// A fact `subject --predicate--> object`, valid from `valid_from` until `valid_to`
/// (`None` while it still holds). `confidence` holds the IEEE-754 bits of the score.
pub struct Triple {
    pub id: String,
    pub subject: String,
    pub predicate: String,
    pub object: String,
    pub valid_from: Option<String>,
    pub valid_to: Option<String>,
    pub confidence: u64,
    pub source_closet: Option<String>,
    pub source_file: Option<String>,
    pub extracted_at: String,
}

pub fn clone_opt_string(s: &Option<String>) -> (r: Option<String>)
    ensures
        r == *s,
{
    match s {
        Some(x) => Some(x.clone()),
        None => None,
    }
}

impl Clone for Triple {
    fn clone(&self) -> (r: Self)
        ensures
            r == *self,
    {
        Triple {
            id: self.id.clone(),
            subject: self.subject.clone(),
            predicate: self.predicate.clone(),
            object: self.object.clone(),
            valid_from: clone_opt_string(&self.valid_from),
            valid_to: clone_opt_string(&self.valid_to),
            confidence: self.confidence,
            source_closet: clone_opt_string(&self.source_closet),
            source_file: clone_opt_string(&self.source_file),
            extracted_at: self.extracted_at.clone(),
        }
    }
}


pub open spec fn opt_string_view(o: Option<String>) -> Option<Seq<char>> {
    match o {
        Some(s) => Some(s@),
        None => None,
    }
}

/// What an entity holds, as mathematical values.
pub struct EntityView {
    pub id: Seq<char>,
    pub name: Seq<char>,
    pub entity_type: Seq<char>,
    pub properties: Seq<char>,
    pub created_at: Seq<char>,
}

impl View for Entity {
    type V = EntityView;

    open spec fn view(&self) -> EntityView {
        EntityView {
            id: self.id@,
            name: self.name@,
            entity_type: self.entity_type@,
            properties: self.properties@,
            created_at: self.created_at@,
        }
    }
}

/// What a triple holds, as mathematical values.
pub struct TripleView {
    pub id: Seq<char>,
    pub subject: Seq<char>,
    pub predicate: Seq<char>,
    pub object: Seq<char>,
    pub valid_from: Option<Seq<char>>,
    pub valid_to: Option<Seq<char>>,
    pub confidence: u64,
    pub source_closet: Option<Seq<char>>,
    pub source_file: Option<Seq<char>>,
    pub extracted_at: Seq<char>,
}

impl View for Triple {
    type V = TripleView;

    open spec fn view(&self) -> TripleView {
        TripleView {
            id: self.id@,
            subject: self.subject@,
            predicate: self.predicate@,
            object: self.object@,
            valid_from: opt_string_view(self.valid_from),
            valid_to: opt_string_view(self.valid_to),
            confidence: self.confidence,
            source_closet: opt_string_view(self.source_closet),
            source_file: opt_string_view(self.source_file),
            extracted_at: self.extracted_at@,
        }
    }
}

pub open spec fn entity_views(s: Seq<Entity>) -> Seq<EntityView> {
    s.map_values(|e: Entity| e@)
}

pub open spec fn triple_views(s: Seq<Triple>) -> Seq<TripleView> {
    s.map_values(|t: Triple| t@)
}

} // verus!
