//! The stored record and its mathematical model.

use vstd::prelude::*;

verus! {

/// The mathematical model of a profile: every text field as a sequence of
/// characters, every list as a sequence of such sequences.
pub struct ProfileView {
    pub id: Seq<char>,
    pub prefecture: Seq<char>,
    pub age: Seq<char>,
    pub gender: Seq<char>,
    pub headache_frequency: Seq<char>,
    pub pressure_sensitivity: int,
    pub common_symptoms: Seq<Seq<char>>,
    pub triggers: Seq<Seq<char>>,
    pub notifications: bool,
}

/// The labels of a list, in order, each as its characters.
pub open spec fn labels_of(list: Seq<String>) -> Seq<Seq<char>> {
    list.map_values(|label: String| label@)
}

/// One registered individual's self-reported attributes.
#[derive(Debug, PartialEq, Eq)]
pub struct UserProfile {
    pub id: String,
    pub prefecture: String,
    pub age: String,
    pub gender: String,
    pub headache_frequency: String,
    pub pressure_sensitivity: i32,
    pub common_symptoms: Vec<String>,
    pub triggers: Vec<String>,
    pub notifications: bool,
}

impl View for UserProfile {
    type V = ProfileView;

    open spec fn view(&self) -> ProfileView {
        ProfileView {
            id: self.id@,
            prefecture: self.prefecture@,
            age: self.age@,
            gender: self.gender@,
            headache_frequency: self.headache_frequency@,
            pressure_sensitivity: self.pressure_sensitivity as int,
            common_symptoms: labels_of(self.common_symptoms@),
            triggers: labels_of(self.triggers@),
            notifications: self.notifications,
        }
    }
}

/// The profiles of a list, in order, each as its model.
pub open spec fn profiles_of(list: Seq<UserProfile>) -> Seq<ProfileView> {
    list.map_values(|profile: UserProfile| profile@)
}

impl Clone for UserProfile {
    fn clone(&self) -> (copy: Self)
        ensures
            copy@ == self@,
    {
        let common_symptoms = self.common_symptoms.clone();
        let triggers = self.triggers.clone();
        assert(labels_of(common_symptoms@) =~= labels_of(self.common_symptoms@));
        assert(labels_of(triggers@) =~= labels_of(self.triggers@));
        UserProfile {
            id: self.id.clone(),
            prefecture: self.prefecture.clone(),
            age: self.age.clone(),
            gender: self.gender.clone(),
            headache_frequency: self.headache_frequency.clone(),
            pressure_sensitivity: self.pressure_sensitivity,
            common_symptoms,
            triggers,
            notifications: self.notifications,
        }
    }
}

} // verus!
