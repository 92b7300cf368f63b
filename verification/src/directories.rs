//! The configuration directory as an earlier layout of the application kept
//! it: a list of names led by a "None" entry, and the index of the current one.
use vstd::prelude::*;
use crate::config::Config;
use crate::dir_manager::{add_toml_extension, remove_toml_extension, with_toml, without_toml};
use crate::name_sorter::{add_sorted, numbers_fit};
use crate::settings::Settings;
use crate::text::concat;

verus! {

/// The name of a configuration file for the configuration `input`.
pub fn add_toml_ext(input: &str) -> (r: String)
    ensures
        r@ == with_toml(input@),
{
    add_toml_extension(input)
}

/// The name of a configuration, from the name of its file.
pub fn remove_toml_ext(s: &str) -> (r: &str)
    ensures
        r@ == without_toml(s@),
{
    remove_toml_extension(s)
}

/// The path of the file `name` in the directory `dir`, `/` between them.
pub open spec fn joined(dir: Seq<char>, name: Seq<char>) -> Seq<char> {
    if dir.len() == 0 {
        name
    } else if dir.last() == '/' {
        dir + name
    } else {
        dir + seq!['/'] + name
    }
}

/// The path of the file `name` in the directory `dir`.
pub fn join_path(dir: &str, name: &str) -> (r: String)
    ensures
        r@ == joined(dir@, name@),
{
    let n = dir.unicode_len();
    if n == 0 {
        String::from_str(name)
    } else if dir.get_char(n - 1) == '/' {
        concat(dir, name)
    } else {
        proof {
            reveal_strlit("/");
        }
        let d = concat(dir, "/");
        let r = concat(d.as_str(), name);
        proof {
            assert(r@ =~= dir@ + seq!['/'] + name@);
        }
        r
    }
}

/// The names of the configurations, the first entry standing for no
/// configuration, and the index of the current one.
pub struct ConfigNames {
    pub data: Vec<String>,
    pub current_index: usize,
}

/// The names of the list are well formed: at least the first entry, the
/// current index within the list, every run of digits of a name within an `i32`.
pub open spec fn names_wf(data: Seq<String>, current_index: nat) -> bool {
    &&& data.len() >= 1
    &&& current_index < data.len()
    &&& forall|i: int| 0 <= i < data.len() ==> numbers_fit(#[trigger] data[i]@)
}

/// The first position of `name` in `data`.
pub open spec fn first_index(data: Seq<String>, name: Seq<char>, i: int) -> bool {
    0 <= i < data.len() && data[i]@ == name && forall|j: int| 0 <= j < i ==> data[j]@ != name
}

impl ConfigNames {
    /// The list with only the entry that stands for no configuration, under
    /// the name `none`, as the current one.
    pub fn new(none: String, names: Vec<String>) -> (r: Self)
        requires
            numbers_fit(none@),
            forall|i: int| 0 <= i < names@.len() ==> numbers_fit(#[trigger] names@[i]@),
        ensures
            r.data@ == seq![none] + names@,
            r.current() == 0,
            r.wf(),
    {
        let ghost n0 = names@;
        let mut data: Vec<String> = Vec::new();
        data.push(none);
        let mut names = names;
        data.append(&mut names);
        proof {
            assert forall|i: int| 0 <= i < data@.len() implies numbers_fit(#[trigger] data@[i]@) by {
                if i > 0 {
                    assert(data@[i] == n0[i - 1]) by {
                        assert(data@ =~= seq![none] + n0);
                    }
                }
            }
        }
        ConfigNames { data, current_index: 0 }
    }

    /// The index of the current entry.
    pub open spec fn current(&self) -> nat {
        self.current_index as nat
    }

    pub open spec fn wf(&self) -> bool {
        names_wf(self.data@, self.current_index as nat)
    }

    /// Makes the first entry named `config_name` the current one, if any.
    pub fn set_index(&mut self, config_name: &str)
        requires
            old(self).wf(),
        ensures
            final(self).wf(),
            final(self).data == old(self).data,
            forall|i: int| #![auto] first_index(old(self).data@, config_name@, i) ==> final(self).current() == i,
            (forall|i: int| 0 <= i < old(self).data@.len() ==> old(self).data@[i]@ != config_name@) ==> final(self).current() == old(self).current(),
    {
        let mut i: usize = 0;
        while i < self.data.len()
            invariant
                i <= self.data@.len(),
                self.data == old(self).data,
                self.current_index == old(self).current_index,
                old(self).wf(),
                forall|j: int| 0 <= j < i ==> self.data@[j]@ != config_name@,
            decreases self.data@.len() - i,
        {
            if self.data[i] == String::from_str(config_name) {
                self.current_index = i;
                proof {
                    assert forall|k: int| #![auto] first_index(old(self).data@, config_name@, k) implies i == k by {
                        if k < i {
                        } else if k > i {
                            assert(old(self).data@[i as int]@ == config_name@);
                        }
                    }
                }
                return;
            }
            i = i + 1;
        }
    }

    /// Removes the current entry, which must not be the first, and returns it.
    pub fn remove_current(&mut self) -> (r: String)
        requires
            old(self).wf(),
            old(self).current() != 0,
            old(self).data@.len() >= 2,
        ensures
            r == old(self).data@[old(self).current() as int],
            final(self).data@ == old(self).data@.remove(old(self).current() as int),
            final(self).current() == 0,
            final(self).wf(),
    {
        let i = self.current_index;
        self.remove(i)
    }

    /// Removes the entry at `index`, which must not be the first; the first
    /// entry becomes the current one when the current one is removed.
    pub fn remove(&mut self, index: usize) -> (r: String)
        requires
            old(self).wf(),
            index != 0,
            index < old(self).data@.len(),
        ensures
            r == old(self).data@[index as int],
            final(self).data@ == old(self).data@.remove(index as int),
            old(self).current() == index ==> final(self).current() == 0,
            old(self).current() != index ==> final(self).current() == old(self).current(),
    {
        if self.current_index == index {
            self.current_index = 0;
        }
        self.data.remove(index)
    }

    /// Inserts `name` (without its extension) with `add_sorted`, and makes it
    /// the current entry.
    pub fn add(&mut self, name: &str)
        requires
            old(self).wf(),
            numbers_fit(without_toml(name@)),
        ensures
            final(self).current() <= old(self).data@.len(),
            final(self).data@[final(self).current() as int]@ == without_toml(name@),
            final(self).data@.len() == old(self).data@.len() + 1,
            final(self).data@.remove(final(self).current() as int) == old(self).data@,
    {
        let name = String::from_str(remove_toml_ext(name));
        let ghost n = name;
        let index = add_sorted(&mut self.data, name);
        self.current_index = index;
        proof {
            assert(self.data@.remove(index as int) =~= old(self).data@);
        }
    }

    /// Whether some entry is `name` (without its extension).
    pub fn contains(&self, name: &str) -> (r: bool)
        ensures
            r == (exists|i: int| 0 <= i < self.data@.len() && self.data@[i]@ == without_toml(name@)),
    {
        let ghost param = name@;
        let stripped = remove_toml_ext(name);
        let mut i: usize = 0;
        while i < self.data.len()
            invariant
                i <= self.data@.len(),
                stripped@ == without_toml(param),
                param == name@,
                forall|j: int| 0 <= j < i ==> self.data@[j]@ != stripped@,
            decreases self.data@.len() - i,
        {
            if self.data[i] == String::from_str(stripped) {
                proof {
                    assert(self.data@[i as int]@ == without_toml(param));
                }
                return true;
            }
            i = i + 1;
        }
        false
    }

    /// The name at `index`; none for the first entry.
    pub fn get(&self, index: usize) -> (r: Option<&String>)
        requires
            index < self.data@.len(),
        ensures
            index == 0 ==> r.is_none(),
            index != 0 ==> r == Some(&self.data@[index as int]),
    {
        if index == 0 {
            None
        } else {
            Some(&self.data[index])
        }
    }

    /// The name of the current entry; none for the first entry.
    pub fn get_current(&self) -> (r: Option<&String>)
        requires
            self.wf(),
        ensures
            self.current() == 0 ==> r.is_none(),
            self.current() != 0 ==> r == Some(&self.data@[self.current() as int]),
    {
        self.get(self.current_index)
    }

    /// The entries after the current one.
    pub fn names(&self) -> (r: &[String])
        requires
            self.wf(),
        ensures
            r@ == self.data@.subrange(self.current() as int + 1, self.data@.len() as int),
    {
        let (_left, right) = self.data.as_slice().split_at(self.current_index);
        let (_, right) = right.split_at(1);
        proof {
            assert(right@ =~= self.data@.subrange(self.current() as int + 1, self.data@.len() as int));
        }
        right
    }

    /// True when the list holds more than the first entry.
    pub fn is_empty(&self) -> (r: bool)
        ensures
            r == (self.data@.len() > 1),
    {
        self.data.len() > 1
    }

    /// The position of the first entry `name`.
    pub fn index_of(&self, name: &str) -> (r: Option<usize>)
        ensures
            match r {
                Some(i) => first_index(self.data@, name@, i as int),
                None => forall|j: int| 0 <= j < self.data@.len() ==> self.data@[j]@ != name@,
            },
    {
        let mut i: usize = 0;
        while i < self.data.len()
            invariant
                i <= self.data@.len(),
                forall|j: int| 0 <= j < i ==> self.data@[j]@ != name@,
            decreases self.data@.len() - i,
        {
            if self.data[i] == String::from_str(name) {
                return Some(i);
            }
            i = i + 1;
        }
        None
    }

    /// The index of the current entry.
    pub fn index(&self) -> (r: usize)
        ensures
            r == self.current(),
    {
        self.current_index
    }
}

/// The configuration directory: where it is, the names of its
/// configurations, and the settings.
pub struct DirManager {
    pub config_dir_path: String,
    pub config_names: ConfigNames,
    pub settings: Settings,
}

impl DirManager {
    /// The path of the settings file.
    pub fn settings_file_path(&self) -> (r: String)
        ensures
            r@ == joined(self.config_dir_path@, "settings.toml"@),
    {
        join_path(self.config_dir_path.as_str(), "settings.toml")
    }

    /// The path of the hardware file.
    pub fn hardware_file_path(&self) -> (r: String)
        ensures
            r@ == joined(self.config_dir_path@, "hardware.toml"@),
    {
        join_path(self.config_dir_path.as_str(), "hardware.toml")
    }

    /// The path of the file of the configuration `name`.
    pub fn config_file_path(&self, name: &str) -> (r: String)
        ensures
            r@ == joined(self.config_dir_path@, with_toml(name@)),
    {
        let file = add_toml_ext(name);
        join_path(self.config_dir_path.as_str(), file.as_str())
    }

    /// Makes the entry `index` current. For the first entry no configuration
    /// is current and none is returned; for another, `loaded` is what reading
    /// its file gave: on success the entry becomes the current configuration
    /// and its name and configuration are returned, else the error is.
    pub fn change_config(&mut self, index: usize, loaded: Option<Result<Config, String>>) -> (r: Result<Option<(String, Config)>, String>)
        requires
            old(self).config_names.wf(),
            index < old(self).config_names.data@.len(),
            (index != 0) == loaded.is_some(),
        ensures
            final(self).config_names.current() == index,
            final(self).config_names.data == old(self).config_names.data,
            final(self).config_names.wf(),
            index == 0 ==> r == Ok::<Option<(String, Config)>, String>(None) && final(self).settings.current_config.is_none(),
            index != 0 ==> match loaded.unwrap() {
                Ok(c) => (r matches Ok(Some((n, c2))) && n == old(self).config_names.data@[index as int] && c2 == c
                    && final(self).settings.current_config == Some(n)),
                Err(e) => r == Err::<Option<(String, Config)>, String>(e) && final(self).settings.current_config
                    == old(self).settings.current_config,
            },
            final(self).settings.theme == old(self).settings.theme,
            final(self).settings.update_delay == old(self).settings.update_delay,
    {
        self.config_names.current_index = index;
        match self.config_names.get(index) {
            Some(name) => {
                let name = name.clone();
                match loaded {
                    Some(Ok(config)) => {
                        self.settings.current_config = Some(name.clone());
                        Ok(Some((name, config)))
                    },
                    Some(Err(e)) => Err(e),
                    None => Err(String::new()),
                }
            },
            None => {
                self.settings.current_config = None;
                Ok(None)
            },
        }
    }

    /// Records a new configuration `new_config_name` once `written` tells
    /// that its file was written; a taken name is refused before any write.
    pub fn create_config(&mut self, new_config_name: &str, written: Result<(), String>) -> (r: Result<(), String>)
        requires
            old(self).config_names.wf(),
            numbers_fit(without_toml(new_config_name@)),
        ensures
            written is Err ==> r == written && final(self).config_names.data == old(self).config_names.data
                && final(self).settings == old(self).settings,
            written is Ok ==> r is Ok && final(self).config_names.data@.len() == old(self).config_names.data@.len() + 1
                && final(self).config_names.data@[final(self).config_names.current() as int]@ == without_toml(new_config_name@)
                && (final(self).settings.current_config matches Some(n) && n@ == new_config_name@),
    {
        if let Err(e) = written {
            return Err(e);
        }
        self.config_names.add(new_config_name);
        self.settings.current_config = Some(String::from_str(new_config_name));
        Ok(())
    }
}

} // verus!
