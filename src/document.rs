//! Legal documents (statute articles and court precedents) and the scored
//! hits that the search backend returns for them.
use vstd::prelude::*;

verus! {

/// Identifier of the law that a statute article belongs to.
#[derive(Debug)]
pub struct LawId {
    pub code: String,
}

/// Position of an article inside its law (article and paragraph numbers).
#[derive(Debug)]
pub struct ArticleIndex {
    pub article: String,
    pub paragraph: String,
}

/// Case identifiers of a court precedent.
#[derive(Debug)]
pub struct PrecedentInfo {
    pub lawsuit_id: String,
    pub case_name: String,
}

/// One indexed fragment of a statute: an article of a law.
#[derive(Debug)]
pub struct Law {
    pub id: String,
    pub law_id: LawId,
    pub name: String,
    pub index: ArticleIndex,
    pub text: String,
}

/// A court precedent.
#[derive(Debug)]
pub struct Precedent {
    pub id: String,
    pub info: PrecedentInfo,
    pub text: String,
}

/// A document of the index: a statute article or a precedent.
#[derive(Debug)]
pub enum LegalDocument {
    Law(Law),
    Precedent(Precedent),
}

impl Clone for LawId {
    fn clone(&self) -> (r: Self)
        ensures
            r == *self,
    {
        LawId { code: self.code.clone() }
    }
}

impl Clone for ArticleIndex {
    fn clone(&self) -> (r: Self)
        ensures
            r == *self,
    {
        ArticleIndex { article: self.article.clone(), paragraph: self.paragraph.clone() }
    }
}

impl Clone for PrecedentInfo {
    fn clone(&self) -> (r: Self)
        ensures
            r == *self,
    {
        PrecedentInfo { lawsuit_id: self.lawsuit_id.clone(), case_name: self.case_name.clone() }
    }
}

impl Clone for Law {
    fn clone(&self) -> (r: Self)
        ensures
            r == *self,
    {
        Law {
            id: self.id.clone(),
            law_id: self.law_id.clone(),
            name: self.name.clone(),
            index: self.index.clone(),
            text: self.text.clone(),
        }
    }
}

impl Clone for Precedent {
    fn clone(&self) -> (r: Self)
        ensures
            r == *self,
    {
        Precedent { id: self.id.clone(), info: self.info.clone(), text: self.text.clone() }
    }
}

impl Clone for LegalDocument {
    fn clone(&self) -> (r: Self)
        ensures
            r == *self,
    {
        match self {
            LegalDocument::Law(l) => LegalDocument::Law(l.clone()),
            LegalDocument::Precedent(p) => LegalDocument::Precedent(p.clone()),
        }
    }
}

impl LegalDocument {
    /// The identity shared by all fragments of one logical document.
    pub open spec fn id_of(&self) -> Seq<char> {
        match self {
            LegalDocument::Law(l) => l.id@,
            LegalDocument::Precedent(p) => p.id@,
        }
    }

    /// The full text of the document.
    pub open spec fn text_of(&self) -> Seq<char> {
        match self {
            LegalDocument::Law(l) => l.text@,
            LegalDocument::Precedent(p) => p.text@,
        }
    }

    /// The display name: defined for statute articles only.
    pub open spec fn name_of(&self) -> Option<Seq<char>> {
        match self {
            LegalDocument::Law(l) => Some(l.name@),
            LegalDocument::Precedent(_) => None,
        }
    }

    pub fn get_id(&self) -> (r: String)
        ensures
            r@ == self.id_of(),
    {
        match self {
            LegalDocument::Law(l) => l.id.clone(),
            LegalDocument::Precedent(p) => p.id.clone(),
        }
    }

    pub fn get_text(&self) -> (r: String)
        ensures
            r@ == self.text_of(),
    {
        match self {
            LegalDocument::Law(l) => l.text.clone(),
            LegalDocument::Precedent(p) => p.text.clone(),
        }
    }

    pub fn get_name(&self) -> (r: Option<String>)
        ensures
            r matches Some(n) ==> self.name_of() == Some(n@),
            r is None ==> self.name_of() is None,
    {
        match self {
            LegalDocument::Law(l) => Some(l.name.clone()),
            LegalDocument::Precedent(_) => None,
        }
    }
}

/// A relevance score, held as the bit pattern of the IEEE-754 double that
/// the search backend reports.
#[derive(Debug, Clone, Copy)]
pub struct Score {
    pub bits: u64,
}

pub const SIGN_BIT: u64 = 0x8000_0000_0000_0000;

impl Score {
    /// A key whose integer order is the numeric order of the doubles: the
    /// two zeros share one key, negative values are flipped below the
    /// positive ones.
    pub open spec fn order_key(self) -> u64 {
        if self.bits == SIGN_BIT {
            SIGN_BIT
        } else if self.bits & SIGN_BIT != 0 {
            !self.bits
        } else {
            self.bits | SIGN_BIT
        }
    }

    pub fn key(&self) -> (r: u64)
        ensures
            r == self.order_key(),
    {
        if self.bits == SIGN_BIT {
            SIGN_BIT
        } else if self.bits & SIGN_BIT != 0 {
            !self.bits
        } else {
            self.bits | SIGN_BIT
        }
    }
}

/// A hit of a search: a document and the score the backend gave it, if any.
#[derive(Debug)]
pub struct LegalDocumentSearchResult {
    pub score: Option<Score>,
    pub document: LegalDocument,
}

impl Clone for LegalDocumentSearchResult {
    fn clone(&self) -> (r: Self)
        ensures
            r == *self,
    {
        LegalDocumentSearchResult { score: self.score, document: self.document.clone() }
    }
}

impl LegalDocumentSearchResult {
    pub open spec fn id_of(&self) -> Seq<char> {
        self.document.id_of()
    }

    /// Rank of the hit: hits without a score come after every scored hit.
    pub open spec fn rank(&self) -> int {
        match self.score {
            Some(s) => s.order_key() + 1,
            None => 0,
        }
    }
}

} // verus!
